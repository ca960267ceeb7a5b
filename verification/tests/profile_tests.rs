use duet::profile::{local_state, location, parse, parse_remote, remote_state, ProfileError};
use duet::scan::location::Location;

fn lines(ls: &[&str]) -> Vec<Vec<u8>> {
    ls.iter().map(|l| l.as_bytes().to_vec()).collect()
}

#[test]
fn parse_full_profile() {
    let p = parse(&lines(&[
        "# home sync",
        "",
        "/home/u/src",
        "ssh host duet /dst",
        "+photos",
        "-photos/tmp",
        "[ignore]",
        "*.o",
    ]))
    .unwrap();
    assert_eq!(p.local, b"/home/u/src".to_vec());
    assert_eq!(p.remote, b"ssh host duet /dst".to_vec());
    assert_eq!(
        p.locations,
        vec![
            Location::Exclude(b".".to_vec()),
            Location::Include(b"photos".to_vec()),
            Location::Exclude(b"photos/tmp".to_vec()),
        ]
    );
    assert_eq!(p.ignore, vec![b"*.o".to_vec()]);
}

#[test]
fn parse_minimal_profile() {
    let p = parse(&lines(&["/a", "/b"])).unwrap();
    assert_eq!(p.local, b"/a".to_vec());
    assert_eq!(p.remote, b"/b".to_vec());
    assert_eq!(p.locations, vec![Location::Exclude(b".".to_vec())]);
    assert_eq!(p.ignore, Vec::<Vec<u8>>::new());
}

#[test]
fn parse_rejects_a_malformed_rule_line() {
    let r = parse(&lines(&["/a", "/b", "zzz"]));
    assert_eq!(r, Err(ProfileError::BadLine(b"zzz".to_vec())));
}

#[test]
fn state_file_names() {
    assert_eq!(location(&b"work".to_vec()), b"work.prf".to_vec());
    assert_eq!(local_state(&b"work".to_vec()), b"work.snp".to_vec());
    assert_eq!(remote_state(&b"abc123".to_vec()), b"remotes/abc123".to_vec());
}

fn words(ws: &[&str]) -> Vec<Vec<u8>> {
    ws.iter().map(|w| w.as_bytes().to_vec()).collect()
}

#[test]
fn remote_spec_forms() {
    let (base, server, cmd) = parse_remote(&words(&["/dst"]));
    assert_eq!(base, b"/dst".to_vec());
    assert_eq!(server, None);
    assert_eq!(cmd, b"duet".to_vec());

    let (base, server, cmd) = parse_remote(&words(&["bin/duet", "/dst"]));
    assert_eq!(base, b"/dst".to_vec());
    assert_eq!(server, None);
    assert_eq!(cmd, b"bin/duet".to_vec());

    let (base, server, cmd) = parse_remote(&words(&["ssh", "host", "/dst"]));
    assert_eq!(base, b"/dst".to_vec());
    assert_eq!(server, Some(b"host".to_vec()));
    assert_eq!(cmd, b"duet".to_vec());

    let (base, server, cmd) = parse_remote(&words(&["ssh", "host", "bin/duet", "/dst"]));
    assert_eq!(base, b"/dst".to_vec());
    assert_eq!(server, Some(b"host".to_vec()));
    assert_eq!(cmd, b"bin/duet".to_vec());
}
