use duet::paths::{join_paths, relative, starts_with_path};
use duet::scan::location::Location;
use duet::scan::{find_parent, narrow_parent_from_to, ParentFromTo};

fn locs() -> Vec<Location> {
    vec![
        Location::Exclude(b".".to_vec()),
        Location::Include(b"a".to_vec()),
        Location::Exclude(b"a/b".to_vec()),
        Location::Include(b"c".to_vec()),
    ]
}

#[test]
fn window_narrows_to_the_rules_below_a_directory() {
    let locations = locs();
    let pft = ParentFromTo { parent: 0, from: 0, to: 3 };
    let r = narrow_parent_from_to(pft, &b"a".to_vec(), &locations);
    // the rules at and under `a` are indices 1 and 2, and `a` itself governs
    assert_eq!(r.parent, 1);
    assert_eq!(r.from, 1);
    assert_eq!(r.to, 2);

    let r2 = narrow_parent_from_to(r, &b"a/b".to_vec(), &locations);
    assert_eq!(r2.parent, 2);
    assert_eq!(r2.from, 2);
    assert_eq!(r2.to, 2);
}

#[test]
fn window_empties_under_an_unruled_directory() {
    let locations = locs();
    let pft = ParentFromTo { parent: 0, from: 0, to: 3 };
    let r = narrow_parent_from_to(pft, &b"zzz".to_vec(), &locations);
    // no rule applies below; the parent (the root exclusion) stays
    assert_eq!(r.parent, 0);
    assert!(r.from > r.to);
}

#[test]
fn governing_rule_is_the_deepest_match() {
    let locations = locs();
    let pft = ParentFromTo { parent: 1, from: 1, to: 2 };
    // a path with its own rule is governed by it
    let rule = find_parent(&b"a/b".to_vec(), &locations, &pft);
    assert!(rule.is_exclude());
    assert_eq!(rule.path(), &b"a/b".to_vec());
    // a path without one falls back to the enclosing rule
    let rule = find_parent(&b"a/z".to_vec(), &locations, &pft);
    assert!(rule.is_include());
    assert_eq!(rule.path(), &b"a".to_vec());
}

#[test]
fn rules_are_rerooted_under_the_base() {
    let rule = Location::Include(b"photos".to_vec());
    let prefixed = rule.prefix(&b"/home/u".to_vec());
    assert_eq!(prefixed, Location::Include(b"/home/u/photos".to_vec()));
    assert_eq!(
        Location::Exclude(b"x".to_vec()).prefix(&b"".to_vec()),
        Location::Exclude(b"x".to_vec())
    );
}

#[test]
fn path_prefix_respects_component_boundaries() {
    assert!(starts_with_path(&b"a/b".to_vec(), &b"a".to_vec()));
    assert!(starts_with_path(&b"a".to_vec(), &b"a".to_vec()));
    assert!(starts_with_path(&b"a".to_vec(), &b"".to_vec()));
    assert!(!starts_with_path(&b"ab".to_vec(), &b"a".to_vec()));
    assert!(!starts_with_path(&b"a".to_vec(), &b"a/b".to_vec()));
}

#[test]
fn joining_and_stripping_are_inverse() {
    let base = b"/home/u".to_vec();
    let rel = b"a/b".to_vec();
    let joined = join_paths(&base, &rel);
    assert_eq!(joined, b"/home/u/a/b".to_vec());
    assert_eq!(relative(&base, &joined), rel);
    assert_eq!(relative(&base, &base), b"".to_vec());
}
