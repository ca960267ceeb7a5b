//! Profiles: which two roots to sync, what to include, what to ignore.
//!
//! A profile is UTF-8 text, one directive per line: the local root, the
//! remote specification, `+`/`-` location rules, and glob patterns after an
//! `[ignore]` header. Blank lines and `#` comments are skipped. The parser
//! here works on the lines as plain byte strings; reading the file and
//! expanding `~` happen outside the library.

use vstd::prelude::*;

use crate::paths::bytes_dup;
use crate::scan::location::{Location, LocationV};

verus! {

/// Mathematical value of a [`Profile`].
pub ghost struct ProfileV {
    pub local: Seq<u8>,
    pub remote: Seq<u8>,
    pub locations: Seq<LocationV>,
    pub ignore: Seq<Seq<u8>>,
}

/// A parsed profile: the two roots, the ordered location rules (starting
/// with the implicit exclusion of everything), and the ignore patterns.
#[derive(Debug, PartialEq)]
pub struct Profile {
    pub local: Vec<u8>,
    pub remote: Vec<u8>,
    pub locations: Vec<Location>,
    pub ignore: Vec<Vec<u8>>,
}

impl View for Profile {
    type V = ProfileV;

    open spec fn view(&self) -> ProfileV {
        ProfileV {
            local: self.local@,
            remote: self.remote@,
            locations: self.locations@.map_values(|l: Location| l@),
            ignore: self.ignore@.map_values(|p: Vec<u8>| p@),
        }
    }
}

/// `name.prf`: the profile file's name under the configuration directory.
pub fn location(name: &Vec<u8>) -> (r: Vec<u8>)
    ensures
        r@ == name@ + seq![46u8, 112u8, 114u8, 102u8],
{
    let mut r = bytes_dup(name);
    r.push(46u8);
    r.push(112u8);
    r.push(114u8);
    r.push(102u8);
    proof {
        assert(r@ =~= name@ + seq![46u8, 112u8, 114u8, 102u8]);
    }
    r
}

/// `name.snp`: the local snapshot file's name under the configuration
/// directory.
pub fn local_state(name: &Vec<u8>) -> (r: Vec<u8>)
    ensures
        r@ == name@ + seq![46u8, 115u8, 110u8, 112u8],
{
    let mut r = bytes_dup(name);
    r.push(46u8);
    r.push(115u8);
    r.push(110u8);
    r.push(112u8);
    proof {
        assert(r@ =~= name@ + seq![46u8, 115u8, 110u8, 112u8]);
    }
    r
}

/// `remotes`: the directory of peer-side snapshots, relative to the
/// configuration directory.
pub fn remote_state_dir() -> (r: Vec<u8>)
    ensures
        r@ == seq![114u8, 101u8, 109u8, 111u8, 116u8, 101u8, 115u8],
{
    let mut r: Vec<u8> = Vec::new();
    r.push(114u8);
    r.push(101u8);
    r.push(109u8);
    r.push(111u8);
    r.push(116u8);
    r.push(101u8);
    r.push(115u8);
    proof {
        assert(r@ =~= seq![114u8, 101u8, 109u8, 111u8, 116u8, 101u8, 115u8]);
    }
    r
}

/// `remotes/<id>`: where the snapshot keyed by an initiator id lives,
/// relative to the configuration directory.
pub fn remote_state(id: &Vec<u8>) -> (r: Vec<u8>)
    ensures
        r@ == seq![114u8, 101u8, 109u8, 111u8, 116u8, 101u8, 115u8, 47u8] + id@,
{
    let mut r = remote_state_dir();
    r.push(47u8);
    let mut i: usize = 0;
    while i < id.len()
        invariant
            0 <= i <= id@.len(),
            r@ == seq![114u8, 101u8, 109u8, 111u8, 116u8, 101u8, 115u8, 47u8] + id@.subrange(
                0,
                i as int,
            ),
        decreases id@.len() - i,
    {
        r.push(id[i]);
        proof {
            assert(r@ =~= seq![114u8, 101u8, 109u8, 111u8, 116u8, 101u8, 115u8, 47u8]
                + id@.subrange(0, i + 1));
        }
        i += 1;
    }
    proof {
        assert(id@.subrange(0, id@.len() as int) =~= id@);
    }
    r
}

/// ASCII whitespace, as far as profile lines are concerned.
pub open spec fn ascii_ws(b: u8) -> bool {
    b == 32 || b == 9 || b == 13 || b == 10
}

/// The first byte of the line once leading whitespace is stripped.
pub open spec fn trimmed_first(s: Seq<u8>) -> Option<u8>
    decreases s.len(),
{
    if s.len() == 0 {
        None
    } else if ascii_ws(s[0]) {
        trimmed_first(s.skip(1))
    } else {
        Some(s[0])
    }
}

fn trimmed_first_exec(s: &Vec<u8>) -> (r: Option<u8>)
    ensures
        r == trimmed_first(s@),
{
    let mut i: usize = 0;
    proof {
        assert(s@.skip(0) =~= s@);
    }
    while i < s.len()
        invariant
            0 <= i <= s@.len(),
            trimmed_first(s@) == trimmed_first(s@.skip(i as int)),
        decreases s@.len() - i,
    {
        proof {
            assert(s@.skip(i as int)[0] == s@[i as int]);
            assert(s@.skip(i as int).skip(1) =~= s@.skip(i as int + 1));
        }
        let b = s[i];
        if !(b == 32 || b == 9 || b == 13 || b == 10) {
            return Some(b);
        }
        i += 1;
    }
    proof {
        assert(s@.skip(i as int).len() == 0);
    }
    None
}

/// The line from its second byte on.
fn line_tail(s: &Vec<u8>) -> (r: Vec<u8>)
    requires
        s@.len() >= 1,
    ensures
        r@ == s@.skip(1),
{
    let mut r: Vec<u8> = Vec::new();
    let mut i: usize = 1;
    while i < s.len()
        invariant
            1 <= i <= s@.len(),
            r@ == s@.subrange(1, i as int),
        decreases s@.len() - i,
    {
        r.push(s[i]);
        proof {
            assert(r@ =~= s@.subrange(1, i + 1));
        }
        i += 1;
    }
    proof {
        assert(r@ =~= s@.skip(1));
    }
    r
}

/// The bytes of the section header `[ignore]`.
pub open spec fn ignore_header() -> Seq<u8> {
    seq![91u8, 105u8, 103u8, 110u8, 111u8, 114u8, 101u8, 93u8]
}

fn is_ignore_header(s: &Vec<u8>) -> (r: bool)
    ensures
        r == (s@ == ignore_header()),
{
    if s.len() != 8 {
        proof {
            assert(s@ != ignore_header());
        }
        return false;
    }
    let r = s[0] == 91 && s[1] == 105 && s[2] == 103 && s[3] == 110 && s[4] == 111 && s[5] == 114
        && s[6] == 101 && s[7] == 93;
    proof {
        if r {
            assert(s@ =~= ignore_header());
        } else {
            assert(s@ != ignore_header());
        }
    }
    r
}

/// The parser's state: which directive the next line is expected to be.
/// `0` the local root, `1` the remote spec, `2` location rules, `3` ignore
/// patterns.
pub open spec fn parse_lines_spec(lines: Seq<Seq<u8>>, st: int, acc: ProfileV) -> Result<
    ProfileV,
    Seq<u8>,
>
    decreases lines.len(),
{
    if lines.len() == 0 {
        Ok(acc)
    } else {
        let line = lines[0];
        if line.len() == 0 || line[0] == 35 {
            parse_lines_spec(lines.skip(1), st, acc)
        } else if st == 0 {
            parse_lines_spec(lines.skip(1), 1, ProfileV { local: line, ..acc })
        } else if st == 1 {
            parse_lines_spec(lines.skip(1), 2, ProfileV { remote: line, ..acc })
        } else if st == 2 {
            if trimmed_first(line) == Some(43u8) {
                parse_lines_spec(
                    lines.skip(1),
                    2,
                    ProfileV {
                        locations: acc.locations.push(LocationV::Include(line.skip(1))),
                        ..acc
                    },
                )
            } else if trimmed_first(line) == Some(45u8) {
                parse_lines_spec(
                    lines.skip(1),
                    2,
                    ProfileV {
                        locations: acc.locations.push(LocationV::Exclude(line.skip(1))),
                        ..acc
                    },
                )
            } else if line == ignore_header() {
                parse_lines_spec(lines.skip(1), 3, acc)
            } else {
                Err(line)
            }
        } else {
            parse_lines_spec(lines.skip(1), st, ProfileV { ignore: acc.ignore.push(line), ..acc })
        }
    }
}

/// The empty profile every parse starts from: no roots, the implicit
/// exclusion of `.`, no ignore patterns.
pub open spec fn initial_profile() -> ProfileV {
    ProfileV {
        local: Seq::empty(),
        remote: Seq::empty(),
        locations: seq![LocationV::Exclude(seq![46u8])],
        ignore: Seq::empty(),
    }
}

/// Why a profile would not parse.
#[derive(Debug, PartialEq)]
pub enum ProfileError {
    /// A line in the locations section that is neither a rule, a comment nor
    /// the `[ignore]` header.
    BadLine(Vec<u8>),
}

/// The rejection a malformed profile line produces.
pub fn parse_error(line: &Vec<u8>) -> (r: Result<Profile, ProfileError>)
    ensures
        match r {
            Err(ProfileError::BadLine(l)) => l@ == line@,
            Ok(_) => false,
        },
{
    Err(ProfileError::BadLine(bytes_dup(line)))
}

/// Parse a profile from its lines: the local root, the remote spec, the
/// `+`/`-` location rules and the ignore patterns, with blank lines and
/// `#` comments skipped.
pub fn parse(lines: &Vec<Vec<u8>>) -> (r: Result<Profile, ProfileError>)
    ensures
        match r {
            Ok(p) => parse_lines_spec(
                lines@.map_values(|l: Vec<u8>| l@),
                0,
                initial_profile(),
            ) == Ok::<ProfileV, Seq<u8>>(p@),
            Err(ProfileError::BadLine(bad)) => parse_lines_spec(
                lines@.map_values(|l: Vec<u8>| l@),
                0,
                initial_profile(),
            ) == Err::<ProfileV, Seq<u8>>(bad@),
        },
{
    let ghost lv = lines@.map_values(|l: Vec<u8>| l@);
    let mut p = Profile {
        local: Vec::new(),
        remote: Vec::new(),
        locations: Vec::new(),
        ignore: Vec::new(),
    };
    let mut dot: Vec<u8> = Vec::new();
    dot.push(46u8);
    p.locations.push(Location::Exclude(dot));
    proof {
        assert(p@.locations =~= initial_profile().locations);
        assert(p@.local =~= initial_profile().local);
        assert(p@.remote =~= initial_profile().remote);
        assert(p@.ignore =~= initial_profile().ignore);
        assert(p@ == initial_profile());
        assert(lv.skip(0) =~= lv);
    }
    let mut st: usize = 0;
    let mut i: usize = 0;
    while i < lines.len()
        invariant
            0 <= i <= lines@.len(),
            0 <= st <= 3,
            lv == lines@.map_values(|l: Vec<u8>| l@),
            parse_lines_spec(lv, 0, initial_profile()) == parse_lines_spec(
                lv.skip(i as int),
                st as int,
                p@,
            ),
        decreases lines@.len() - i,
    {
        let ghost rest = lv.skip(i as int);
        proof {
            assert(rest[0] == lv[i as int]);
            assert(rest[0] == lines@[i as int]@);
            assert(rest.skip(1) =~= lv.skip(i as int + 1));
        }
        let line = &lines[i];
        if line.len() == 0 || line[0] == 35 {
            // comment or blank line
        } else if st == 0 {
            p.local = bytes_dup(line);
            st = 1;
        } else if st == 1 {
            p.remote = bytes_dup(line);
            st = 2;
        } else if st == 2 {
            let first = trimmed_first_exec(line);
            if first == Some(43u8) {
                let loc = Location::Include(line_tail(line));
                proof {
                    assert(p@.locations.push(loc@) =~= p.locations@.push(loc).map_values(
                        |l: Location| l@,
                    ));
                }
                p.locations.push(loc);
            } else if first == Some(45u8) {
                let loc = Location::Exclude(line_tail(line));
                proof {
                    assert(p@.locations.push(loc@) =~= p.locations@.push(loc).map_values(
                        |l: Location| l@,
                    ));
                }
                p.locations.push(loc);
            } else if is_ignore_header(line) {
                st = 3;
            } else {
                proof {
                    assert(parse_lines_spec(rest, 2, p@) == Err::<ProfileV, Seq<u8>>(line@));
                }
                return parse_error(line);
            }
        } else {
            let pat = bytes_dup(line);
            proof {
                assert(p@.ignore.push(pat@) =~= p.ignore@.push(pat).map_values(|l: Vec<u8>| l@));
            }
            p.ignore.push(pat);
        }
        i += 1;
    }
    proof {
        assert(lv.skip(i as int).len() == 0);
    }
    Ok(p)
}

/// The word `ssh`.
pub open spec fn ssh_word() -> Seq<u8> {
    seq![115u8, 115u8, 104u8]
}

/// The default peer command, `duet`.
pub open spec fn default_command() -> Seq<u8> {
    seq![100u8, 117u8, 101u8, 116u8]
}

/// What a remote specification's words mean: `(base, server, command)`.
/// `ssh <host> [<cmd>] <path>` runs over SSH; `<cmd> <path>` spawns a
/// command; a bare `<path>` spawns the default command on a local path.
pub open spec fn parse_remote_spec(ws: Seq<Seq<u8>>) -> (Seq<u8>, Option<Seq<u8>>, Seq<u8>) {
    let (server, i): (Option<Seq<u8>>, int) = if ws[0] == ssh_word() {
        (Some(ws[1]), 2)
    } else {
        (None, 0)
    };
    if i == ws.len() - 1 {
        (ws[i], server, default_command())
    } else {
        (ws[i + 1], server, ws[i])
    }
}

fn is_ssh_word(s: &Vec<u8>) -> (r: bool)
    ensures
        r == (s@ == ssh_word()),
{
    if s.len() != 3 {
        proof {
            assert(s@ != ssh_word());
        }
        return false;
    }
    let r = s[0] == 115 && s[1] == 115 && s[2] == 104;
    proof {
        if r {
            assert(s@ =~= ssh_word());
        } else {
            assert(s@ != ssh_word());
        }
    }
    r
}

/// Split a remote specification's whitespace-separated words into the remote
/// base path, the SSH host if any, and the command to spawn.
pub fn parse_remote(words: &Vec<Vec<u8>>) -> (r: (Vec<u8>, Option<Vec<u8>>, Vec<u8>))
    requires
        words@.len() >= 1,
        words@[0]@ == ssh_word() ==> words@.len() >= 3,
    ensures
        ({
            let (base, server, cmd) = parse_remote_spec(words@.map_values(|w: Vec<u8>| w@));
            &&& r.0@ == base
            &&& (match r.1 {
                Some(s) => server == Some(s@),
                None => server is None,
            })
            &&& r.2@ == cmd
        }),
{
    let ghost wv = words@.map_values(|w: Vec<u8>| w@);
    let (server, i): (Option<Vec<u8>>, usize) = if is_ssh_word(&words[0]) {
        (Some(bytes_dup(&words[1])), 2)
    } else {
        (None, 0)
    };
    if i == words.len() - 1 {
        let mut cmd: Vec<u8> = Vec::new();
        cmd.push(100u8);
        cmd.push(117u8);
        cmd.push(101u8);
        cmd.push(116u8);
        proof {
            assert(cmd@ =~= default_command());
        }
        (bytes_dup(&words[i]), server, cmd)
    } else {
        (bytes_dup(&words[i + 1]), server, bytes_dup(&words[i]))
    }
}

} // verus!
