//! Planning the transfers and filesystem mutations of one sync.
//!
//! The sending side walks its actions and produces, in action order, a
//! [`ChangeDetails`] for every action that moves file content
//! ([`detail_requests`] says which, and from where). The applying side walks
//! the same actions (reversed) and consumes those details by position:
//! [`lemma_details_pairing`] proves the two sides agree on that pairing.
//! [`apply_detailed_changes`] turns actions, details and the previous
//! snapshot into an ordered list of filesystem operations ([`FsOp`]) and the
//! next snapshot, without touching the filesystem itself.

use vstd::prelude::*;

use crate::paths::bytes_dup;
use crate::scan::{DirEntryWithMeta, EntryV, entries_view};
use crate::scan::change::ChangeV;
use crate::actions::{Action, ActionV, actions_view, reverse_spec, reverse_one};
use crate::rustsync::{Delta, DeltaV};

verus! {

/// Mathematical value of a [`SignatureWithPath`].
pub ghost struct SignatureWithPathV {
    pub path: Seq<u8>,
    pub sig: crate::rustsync::SignatureV,
}

/// A signature tagged with the path of the file it describes.
#[derive(Debug, PartialEq)]
pub struct SignatureWithPath(pub Vec<u8>, pub crate::rustsync::Signature);

impl View for SignatureWithPath {
    type V = SignatureWithPathV;

    open spec fn view(&self) -> SignatureWithPathV {
        SignatureWithPathV { path: self.0@, sig: self.1@ }
    }
}

/// Mathematical value of a [`ChangeDetails`].
pub ghost enum ChangeDetailsV {
    Contents(Seq<u8>),
    Diff(DeltaV),
}

/// Content carried for one action: a whole file, or a delta against the
/// receiver's current file.
#[derive(Debug, PartialEq)]
pub enum ChangeDetails {
    Contents(Vec<u8>),
    Diff(Delta),
}

impl View for ChangeDetails {
    type V = ChangeDetailsV;

    open spec fn view(&self) -> ChangeDetailsV {
        match self {
            ChangeDetails::Contents(v) => ChangeDetailsV::Contents(v@),
            ChangeDetails::Diff(d) => ChangeDetailsV::Diff(d@),
        }
    }
}

/// View of a details list.
pub open spec fn details_view(s: Seq<ChangeDetails>) -> Seq<ChangeDetailsV> {
    s.map_values(|d: ChangeDetails| d@)
}

/// The two shapes a detail can take.
#[derive(Debug, PartialEq)]
pub enum DetailKind {
    Contents,
    Diff,
}

/// The kind of a detail value.
pub open spec fn detail_kind(d: ChangeDetailsV) -> DetailKind {
    match d {
        ChangeDetailsV::Contents(_) => DetailKind::Contents,
        ChangeDetailsV::Diff(_) => DetailKind::Diff,
    }
}

/// The kinds of a details list, in order.
pub open spec fn details_kinds(s: Seq<ChangeDetailsV>) -> Seq<DetailKind> {
    s.map_values(|d: ChangeDetailsV| detail_kind(d))
}

/// The detail the applying side needs for one of its actions, if any: whole
/// contents for a file appearing where none was, a delta for a file changing
/// in place.
pub open spec fn recv_need(a: ActionV) -> Option<DetailKind> {
    match a {
        ActionV::Local(c) | ActionV::ResolvedLocal(_, c) => match c {
            ChangeV::Added(e) => if e.is_file() {
                Some(DetailKind::Contents)
            } else {
                None
            },
            ChangeV::Modified(e1, e2) => if e1.is_file() && e2.is_file() && !e1.same_contents(e2) {
                Some(DetailKind::Diff)
            } else if !e1.is_file() && e2.is_file() {
                Some(DetailKind::Contents)
            } else {
                None
            },
            ChangeV::Removed(_) => None,
        },
        _ => None,
    }
}

/// The kinds of details the applying side consumes, in action order.
pub open spec fn needed_kinds(s: Seq<ActionV>) -> Seq<DetailKind>
    decreases s.len(),
{
    if s.len() == 0 {
        Seq::empty()
    } else {
        (match recv_need(s[0]) {
            Some(k) => seq![k],
            None => Seq::empty(),
        }) + needed_kinds(s.skip(1))
    }
}

/// Mathematical value of a [`DetailRequest`].
pub ghost enum DetailRequestV {
    WholeFile(Seq<u8>),
    DeltaAgainst(Seq<u8>),
}

impl DetailRequestV {
    pub open spec fn kind(self) -> DetailKind {
        match self {
            DetailRequestV::WholeFile(_) => DetailKind::Contents,
            DetailRequestV::DeltaAgainst(_) => DetailKind::Diff,
        }
    }
}

/// What the sending side must read to produce one detail: a whole file, or a
/// delta of the file against the signature the peer sent for it.
#[derive(Debug, PartialEq)]
pub enum DetailRequest {
    WholeFile(Vec<u8>),
    DeltaAgainst(Vec<u8>),
}

impl View for DetailRequest {
    type V = DetailRequestV;

    open spec fn view(&self) -> DetailRequestV {
        match self {
            DetailRequest::WholeFile(p) => DetailRequestV::WholeFile(p@),
            DetailRequest::DeltaAgainst(p) => DetailRequestV::DeltaAgainst(p@),
        }
    }
}

/// View of a request list.
pub open spec fn requests_view(s: Seq<DetailRequest>) -> Seq<DetailRequestV> {
    s.map_values(|r: DetailRequest| r@)
}

/// The detail the sending side owes for one of its actions, if any, and the
/// path it reads it from.
pub open spec fn send_request(a: ActionV) -> Option<DetailRequestV> {
    match a {
        ActionV::Remote(c) | ActionV::ResolvedRemote(_, c) => match c {
            ChangeV::Removed(_) => None,
            ChangeV::Added(e) => if e.is_file() {
                Some(DetailRequestV::WholeFile(e.path))
            } else {
                None
            },
            ChangeV::Modified(e1, e2) => if e1.is_file() && e2.is_file() && !e1.same_contents(e2) {
                Some(DetailRequestV::DeltaAgainst(e1.path))
            } else if !e1.is_file() && e2.is_file() {
                Some(DetailRequestV::WholeFile(e2.path))
            } else {
                None
            },
        },
        _ => None,
    }
}

/// The requests the sending side serves, in action order.
pub open spec fn detail_requests_spec(s: Seq<ActionV>) -> Seq<DetailRequestV>
    decreases s.len(),
{
    if s.len() == 0 {
        Seq::empty()
    } else {
        (match send_request(s[0]) {
            Some(r) => seq![r],
            None => Seq::empty(),
        }) + detail_requests_spec(s.skip(1))
    }
}

/// The file paths the applying side builds signatures for, in action order:
/// one per action whose file changes in place.
pub open spec fn sig_paths_spec(s: Seq<ActionV>) -> Seq<Seq<u8>>
    decreases s.len(),
{
    if s.len() == 0 {
        Seq::empty()
    } else {
        (match s[0] {
            ActionV::Local(c) | ActionV::ResolvedLocal(_, c) => match c {
                ChangeV::Modified(e1, e2) => if e1.is_file() && e2.is_file() && !e1.same_contents(
                    e2,
                ) {
                    seq![e1.path]
                } else {
                    Seq::empty()
                },
                _ => Seq::empty(),
            },
            _ => Seq::empty(),
        }) + sig_paths_spec(s.skip(1))
    }
}

/// The paths of the current files whose signatures the peer needs, in action
/// order: exactly the actions this side will receive a delta for.
pub fn get_signatures(actions: &Vec<Action>) -> (r: Vec<Vec<u8>>)
    ensures
        r@.map_values(|p: Vec<u8>| p@) == sig_paths_spec(actions_view(actions@)),
{
    let ghost av = actions_view(actions@);
    let mut out: Vec<Vec<u8>> = Vec::new();
    let mut k: usize = 0;
    proof {
        assert(av.skip(0) =~= av);
        assert(out@.map_values(|p: Vec<u8>| p@) + sig_paths_spec(av) =~= sig_paths_spec(av));
    }
    while k < actions.len()
        invariant
            0 <= k <= actions@.len(),
            av == actions_view(actions@),
            sig_paths_spec(av) == out@.map_values(|p: Vec<u8>| p@) + sig_paths_spec(
                av.skip(k as int),
            ),
        decreases actions@.len() - k,
    {
        let ghost rest = av.skip(k as int);
        proof {
            assert(rest[0] == av[k as int]);
            assert(rest.skip(1) =~= av.skip(k as int + 1));
        }
        let mut emitted: Option<Vec<u8>> = None;
        match &actions[k] {
            Action::Local(c) | Action::ResolvedLocal((_, _), c) => {
                match c {
                    crate::scan::change::Change::Modified(e1, e2) => {
                        if e1.is_file() && e2.is_file() && !e1.same_contents(e2) {
                            emitted = Some(bytes_dup(e1.path()));
                        }
                    },
                    _ => {},
                }
            },
            _ => {},
        }
        match emitted {
            Some(p) => {
                proof {
                    assert(sig_paths_spec(rest) == seq![p@] + sig_paths_spec(rest.skip(1)));
                    assert(out@.push(p).map_values(|q: Vec<u8>| q@) =~= out@.map_values(
                        |q: Vec<u8>| q@,
                    ).push(p@));
                    assert(out@.map_values(|q: Vec<u8>| q@).push(p@) + sig_paths_spec(
                        av.skip(k as int + 1),
                    ) =~= out@.map_values(|q: Vec<u8>| q@) + sig_paths_spec(rest));
                }
                out.push(p);
            },
            None => {
                proof {
                    assert(sig_paths_spec(rest) == Seq::<Seq<u8>>::empty() + sig_paths_spec(
                        rest.skip(1),
                    ));
                    assert(Seq::<Seq<u8>>::empty() + sig_paths_spec(rest.skip(1)) =~= sig_paths_spec(
                        rest.skip(1),
                    ));
                }
            },
        }
        k += 1;
    }
    proof {
        assert(sig_paths_spec(av.skip(k as int)) =~= Seq::<Seq<u8>>::empty());
        assert(out@.map_values(|p: Vec<u8>| p@) + Seq::<Seq<u8>>::empty() =~= out@.map_values(
            |p: Vec<u8>| p@,
        ));
    }
    out
}

/// The transfers this side owes the peer, in action order: which files to
/// read whole and which to diff against the peer's signature.
pub fn detail_requests(actions: &Vec<Action>) -> (r: Vec<DetailRequest>)
    ensures
        requests_view(r@) == detail_requests_spec(actions_view(actions@)),
{
    let ghost av = actions_view(actions@);
    let mut out: Vec<DetailRequest> = Vec::new();
    let mut k: usize = 0;
    proof {
        assert(av.skip(0) =~= av);
        assert(requests_view(out@) + detail_requests_spec(av) =~= detail_requests_spec(av));
    }
    while k < actions.len()
        invariant
            0 <= k <= actions@.len(),
            av == actions_view(actions@),
            detail_requests_spec(av) == requests_view(out@) + detail_requests_spec(
                av.skip(k as int),
            ),
        decreases actions@.len() - k,
    {
        let ghost rest = av.skip(k as int);
        proof {
            assert(rest[0] == av[k as int]);
            assert(rest.skip(1) =~= av.skip(k as int + 1));
        }
        let mut emitted: Option<DetailRequest> = None;
        match &actions[k] {
            Action::Remote(c) | Action::ResolvedRemote((_, _), c) => {
                match c {
                    crate::scan::change::Change::Removed(_) => {},
                    crate::scan::change::Change::Added(e) => {
                        if e.is_file() {
                            emitted = Some(DetailRequest::WholeFile(bytes_dup(e.path())));
                        }
                    },
                    crate::scan::change::Change::Modified(e1, e2) => {
                        if e1.is_file() && e2.is_file() && !e1.same_contents(e2) {
                            emitted = Some(DetailRequest::DeltaAgainst(bytes_dup(e1.path())));
                        } else if !e1.is_file() && e2.is_file() {
                            emitted = Some(DetailRequest::WholeFile(bytes_dup(e2.path())));
                        }
                    },
                }
            },
            _ => {},
        }
        match emitted {
            Some(q) => {
                proof {
                    assert(detail_requests_spec(rest) == seq![q@] + detail_requests_spec(
                        rest.skip(1),
                    ));
                    assert(requests_view(out@.push(q)) =~= requests_view(out@).push(q@));
                    assert(requests_view(out@).push(q@) + detail_requests_spec(
                        av.skip(k as int + 1),
                    ) =~= requests_view(out@) + detail_requests_spec(rest));
                }
                out.push(q);
            },
            None => {
                proof {
                    assert(detail_requests_spec(rest) == Seq::<DetailRequestV>::empty()
                        + detail_requests_spec(rest.skip(1)));
                    assert(Seq::<DetailRequestV>::empty() + detail_requests_spec(rest.skip(1))
                        =~= detail_requests_spec(rest.skip(1)));
                }
            },
        }
        k += 1;
    }
    proof {
        assert(detail_requests_spec(av.skip(k as int)) =~= Seq::<DetailRequestV>::empty());
        assert(requests_view(out@) + Seq::<DetailRequestV>::empty() =~= requests_view(out@));
    }
    out
}

/// The pairing contract of the transfer: the kinds of details one side emits,
/// walking its actions, are exactly the kinds the other side consumes walking
/// the reversed actions. Details can therefore be paired by position alone.
pub proof fn lemma_details_pairing(s: Seq<ActionV>)
    ensures
        needed_kinds(reverse_spec(s)) == detail_requests_spec(s).map_values(
            |r: DetailRequestV| r.kind(),
        ),
    decreases s.len(),
{
    let lhs = needed_kinds(reverse_spec(s));
    let rhs = detail_requests_spec(s).map_values(|r: DetailRequestV| r.kind());
    if s.len() == 0 {
        assert(reverse_spec(s).len() == 0);
        assert(lhs =~= rhs);
    } else {
        lemma_details_pairing(s.skip(1));
        assert(reverse_spec(s)[0] == reverse_one(s[0]));
        assert(reverse_spec(s).skip(1) =~= reverse_spec(s.skip(1)));
        assert(lhs == (match recv_need(reverse_one(s[0])) {
            Some(k) => seq![k],
            None => Seq::<DetailKind>::empty(),
        }) + needed_kinds(reverse_spec(s.skip(1))));
        // per action, the consumed kind equals the emitted kind
        assert(match (recv_need(reverse_one(s[0])), send_request(s[0])) {
            (Some(k), Some(r)) => k == r.kind(),
            (None, None) => true,
            _ => false,
        });
        let head: Seq<DetailRequestV> = match send_request(s[0]) {
            Some(r) => seq![r],
            None => Seq::empty(),
        };
        assert(detail_requests_spec(s) == head + detail_requests_spec(s.skip(1)));
        assert(rhs =~= head.map_values(|r: DetailRequestV| r.kind()) + detail_requests_spec(
            s.skip(1),
        ).map_values(|r: DetailRequestV| r.kind()));
        match send_request(s[0]) {
            Some(r) => {
                assert(head.map_values(|q: DetailRequestV| q.kind()) =~= seq![r.kind()]);
                assert(lhs =~= rhs);
            },
            None => {
                assert(head.map_values(|q: DetailRequestV| q.kind()) =~= Seq::<
                    DetailKind,
                >::empty());
                assert(lhs =~= rhs);
            },
        }
    }
}

/// Mathematical value of a [`FsOp`].
pub ghost enum FsOpV {
    RemoveFile(Seq<u8>),
    CreateSymlink(Seq<u8>, Seq<u8>),
    CreateDir(Seq<u8>),
    WriteFile(Seq<u8>, Seq<u8>),
    PatchFile(Seq<u8>, DeltaV),
    SetMeta(Seq<u8>, u32, i64, bool),
    RemoveDir(Seq<u8>),
}

/// One filesystem mutation of the apply: paths are relative to the side's
/// base. `SetMeta(path, mode, mtime, is_symlink)` applies permissions (except
/// on symlinks) and the mtime; `PatchFile` rebuilds the file by restoring the
/// delta against its current contents; `WriteFile` writes whole contents.
/// File writes are expected to go to a temporary sibling, then rename.
#[derive(Debug, PartialEq)]
pub enum FsOp {
    RemoveFile(Vec<u8>),
    CreateSymlink(Vec<u8>, Vec<u8>),
    CreateDir(Vec<u8>),
    WriteFile(Vec<u8>, Vec<u8>),
    PatchFile(Vec<u8>, Delta),
    SetMeta(Vec<u8>, u32, i64, bool),
    RemoveDir(Vec<u8>),
}

impl View for FsOp {
    type V = FsOpV;

    open spec fn view(&self) -> FsOpV {
        match self {
            FsOp::RemoveFile(p) => FsOpV::RemoveFile(p@),
            FsOp::CreateSymlink(p, t) => FsOpV::CreateSymlink(p@, t@),
            FsOp::CreateDir(p) => FsOpV::CreateDir(p@),
            FsOp::WriteFile(p, v) => FsOpV::WriteFile(p@, v@),
            FsOp::PatchFile(p, d) => FsOpV::PatchFile(p@, d@),
            FsOp::SetMeta(p, mode, mtime, sym) => FsOpV::SetMeta(p@, *mode, *mtime, *sym),
            FsOp::RemoveDir(p) => FsOpV::RemoveDir(p@),
        }
    }
}

/// View of an operation list.
pub open spec fn ops_view(s: Seq<FsOp>) -> Seq<FsOpV> {
    s.map_values(|o: FsOp| o@)
}

/// The contents a consumed detail carries (empty when it is not contents).
pub open spec fn detail_contents(d: Option<ChangeDetailsV>) -> Seq<u8> {
    match d {
        Some(ChangeDetailsV::Contents(v)) => v,
        _ => Seq::empty(),
    }
}

/// The delta a consumed detail carries (empty when it is not a delta).
pub open spec fn detail_delta(d: Option<ChangeDetailsV>) -> DeltaV {
    match d {
        Some(ChangeDetailsV::Diff(dd)) => dd,
        _ => DeltaV { blocks: Seq::empty(), window: 0 },
    }
}

/// The metadata update closing the mutation of one entry.
pub open spec fn meta_op(e: EntryV) -> FsOpV {
    FsOpV::SetMeta(e.path, e.mode, e.mtime, e.is_symlink())
}

/// The forward-pass operations of one action, given its consumed detail:
/// files and symlinks are created, replaced or removed here; directory
/// creation happens here but directory removal and metadata wait for the
/// reverse pass.
pub open spec fn pass1_ops(a: ActionV, d: Option<ChangeDetailsV>) -> Seq<FsOpV> {
    match a {
        ActionV::Local(c) | ActionV::ResolvedLocal(_, c) => match c {
            ChangeV::Removed(e) => if !e.is_dir {
                seq![FsOpV::RemoveFile(e.path)]
            } else {
                Seq::empty()
            },
            ChangeV::Added(e) => match e.target {
                Some(t) => seq![FsOpV::CreateSymlink(e.path, t), meta_op(e)],
                None => if e.is_dir {
                    seq![FsOpV::CreateDir(e.path)]
                } else {
                    seq![FsOpV::WriteFile(e.path, detail_contents(d)), meta_op(e)]
                },
            },
            ChangeV::Modified(e1, e2) => if e1.is_file() {
                if e2.is_file() {
                    (if !e1.same_contents(e2) {
                        seq![FsOpV::PatchFile(e2.path, detail_delta(d))]
                    } else {
                        Seq::empty()
                    }) + seq![meta_op(e2)]
                } else {
                    seq![FsOpV::RemoveFile(e2.path)] + (match e2.target {
                        Some(t) => seq![FsOpV::CreateSymlink(e2.path, t), meta_op(e2)],
                        None => seq![FsOpV::CreateDir(e2.path)],
                    })
                }
            } else if e1.is_symlink() {
                seq![FsOpV::RemoveFile(e2.path)] + (if e2.is_file() {
                    seq![FsOpV::WriteFile(e2.path, detail_contents(d)), meta_op(e2)]
                } else {
                    match e2.target {
                        Some(t) => seq![FsOpV::CreateSymlink(e2.path, t), meta_op(e2)],
                        None => if e2.is_dir {
                            seq![FsOpV::CreateDir(e2.path)]
                        } else {
                            Seq::empty()
                        },
                    }
                })
            } else {
                Seq::empty()
            },
        },
        _ => Seq::empty(),
    }
}

/// The reverse-pass operations of one action: directories are removed once
/// empty, a directory that became a file or symlink is replaced, and
/// directory metadata is applied after everything inside settled.
pub open spec fn pass2_ops(a: ActionV, d: Option<ChangeDetailsV>) -> Seq<FsOpV> {
    match a {
        ActionV::Local(c) | ActionV::ResolvedLocal(_, c) => if !c.is_dir() {
            Seq::empty()
        } else {
            match c {
                ChangeV::Removed(e) => seq![FsOpV::RemoveDir(e.path)],
                ChangeV::Added(e) => seq![meta_op(e)],
                ChangeV::Modified(e1, e2) => (if e1.is_dir && !e2.is_dir {
                    seq![FsOpV::RemoveDir(e2.path)] + (match e2.target {
                        Some(t) => seq![FsOpV::CreateSymlink(e2.path, t)],
                        None => if e2.is_file() {
                            seq![FsOpV::WriteFile(e2.path, detail_contents(d))]
                        } else {
                            Seq::empty()
                        },
                    })
                } else {
                    Seq::empty()
                }) + seq![meta_op(e2)],
            }
        },
        _ => Seq::empty(),
    }
}

/// All forward-pass operations, walking the actions in order and consuming
/// details by position.
pub open spec fn plan1_spec(s: Seq<ActionV>, d: Seq<ChangeDetailsV>) -> Seq<FsOpV>
    decreases s.len(),
{
    if s.len() == 0 {
        Seq::empty()
    } else {
        let need = recv_need(s[0]);
        let det: Option<ChangeDetailsV> = if need is Some && d.len() > 0 {
            Some(d[0])
        } else {
            None
        };
        let rest_d = if need is Some && d.len() > 0 {
            d.skip(1)
        } else {
            d
        };
        pass1_ops(s[0], det) + plan1_spec(s.skip(1), rest_d)
    }
}

/// All reverse-pass operations: the actions in reverse order, each with the
/// detail it consumed in the forward pass.
pub open spec fn plan2_spec(s: Seq<ActionV>, d: Seq<ChangeDetailsV>) -> Seq<FsOpV>
    decreases s.len(),
{
    if s.len() == 0 {
        Seq::empty()
    } else {
        let need = recv_need(s[0]);
        let det: Option<ChangeDetailsV> = if need is Some && d.len() > 0 {
            Some(d[0])
        } else {
            None
        };
        let rest_d = if need is Some && d.len() > 0 {
            d.skip(1)
        } else {
            d
        };
        plan2_spec(s.skip(1), rest_d) + pass2_ops(s[0], det)
    }
}

/// How many details the first `k` actions consume.
pub open spec fn needs_upto(s: Seq<ActionV>, k: int) -> int
    decreases k,
{
    if k <= 0 {
        0
    } else {
        needs_upto(s, k - 1) + (if recv_need(s[k - 1]) is Some {
            1int
        } else {
            0int
        })
    }
}

/// The details list begins with exactly the kinds the actions consume.
pub open spec fn details_match(s: Seq<ActionV>, d: Seq<ChangeDetailsV>) -> bool {
    let need = needed_kinds(s);
    &&& need.len() <= d.len()
    &&& forall|i: int| 0 <= i < need.len() ==> (#[trigger] need[i]) == detail_kind(d[i])
}

/// The entry a change leaves at its path: none for a removal, the new side
/// otherwise.
pub open spec fn change_result(c: ChangeV) -> Option<EntryV> {
    match c {
        ChangeV::Removed(_) => None,
        ChangeV::Added(e) => Some(e),
        ChangeV::Modified(_, e) => Some(e),
    }
}

/// The snapshot entry an action leaves at its path: every decided action
/// records the new side of its change; an unresolved conflict preserves the
/// prior entry.
pub open spec fn action_result_entry(a: ActionV, prior: Option<EntryV>) -> Option<EntryV> {
    match a {
        ActionV::Local(c) => change_result(c),
        ActionV::ResolvedLocal(_, c) => change_result(c),
        ActionV::Remote(c) => change_result(c),
        ActionV::ResolvedRemote(_, c) => change_result(c),
        ActionV::Identical(c, _) => change_result(c),
        ActionV::Conflict(_, _) => prior,
    }
}

pub open spec fn opt_entry_seq(o: Option<EntryV>) -> Seq<EntryV> {
    match o {
        Some(e) => seq![e],
        None => Seq::empty(),
    }
}

/// The post-apply snapshot: the sorted merge of the old snapshot with the
/// actions, each action's path replaced by what the action leaves there.
pub open spec fn apply_entries_spec(s: Seq<ActionV>, old: Seq<EntryV>) -> Seq<EntryV>
    decreases s.len() + old.len(),
{
    if s.len() == 0 {
        old
    } else if old.len() > 0 && crate::paths::lex_lt(old[0].path, s[0].path()) {
        seq![old[0]] + apply_entries_spec(s, old.skip(1))
    } else if old.len() > 0 && old[0].path == s[0].path() {
        opt_entry_seq(action_result_entry(s[0], Some(old[0]))) + apply_entries_spec(
            s.skip(1),
            old.skip(1),
        )
    } else {
        opt_entry_seq(action_result_entry(s[0], None)) + apply_entries_spec(s.skip(1), old)
    }
}

/// Why an apply could not pair its details with its actions.
#[derive(Debug, PartialEq)]
pub enum ApplyError {
    /// Fewer details than the actions call for.
    MissingDetail,
    /// A detail of the wrong shape where the action calls for the other.
    WrongDetail,
}

/// The entry to record for one action, given the prior entry at its path.
fn action_entry(a: &Action, prior: Option<&DirEntryWithMeta>) -> (r: Option<DirEntryWithMeta>)
    ensures
        ({
            let expected = action_result_entry(
                a@,
                match prior {
                    Some(e) => Some(e@),
                    None => None,
                },
            );
            match r {
                Some(e) => expected == Some(e@),
                None => expected is None,
            }
        }),
{
    match a {
        Action::Local(c) | Action::ResolvedLocal((_, _), c) | Action::Remote(c)
            | Action::ResolvedRemote((_, _), c) | Action::Identical(c, _) => {
            match c {
                crate::scan::change::Change::Removed(_) => None,
                crate::scan::change::Change::Added(e) => Some(e.duplicate()),
                crate::scan::change::Change::Modified(_, e) => Some(e.duplicate()),
            }
        },
        Action::Conflict(_, _) => match prior {
            Some(e) => Some(e.duplicate()),
            None => None,
        },
    }
}

/// Emit the forward-pass operations of one action, consuming its detail.
fn emit_pass1(a: &Action, details: &Vec<ChangeDetails>, jd: &mut usize, ops: &mut Vec<FsOp>) -> (r:
    Result<(), ApplyError>)
    ensures
        match r {
            Ok(_) => match recv_need(a@) {
                Some(kk) => {
                    &&& *old(jd) < details@.len()
                    &&& detail_kind(details_view(details@)[*old(jd) as int]) == kk
                    &&& *final(jd) == *old(jd) + 1
                    &&& ops_view(final(ops)@) == ops_view(old(ops)@) + pass1_ops(
                        a@,
                        Some(details_view(details@)[*old(jd) as int]),
                    )
                },
                None => {
                    &&& *final(jd) == *old(jd)
                    &&& ops_view(final(ops)@) == ops_view(old(ops)@) + pass1_ops(a@, None)
                },
            },
            Err(_) => {
                &&& recv_need(a@) is Some
                &&& (*old(jd) >= details@.len() || (match recv_need(a@) {
                    Some(kk) => detail_kind(details_view(details@)[*old(jd) as int]) != kk,
                    None => false,
                }))
                &&& *final(jd) == *old(jd)
                &&& final(ops)@ == old(ops)@
            },
        },
{
    let ghost dvw = details_view(details@);
    match a {
        Action::Local(c) | Action::ResolvedLocal((_, _), c) => {
            match c {
                crate::scan::change::Change::Removed(e) => {
                    if !e.is_dir() {
                        let op = FsOp::RemoveFile(bytes_dup(e.path()));
                        proof {
                            assert(ops_view(ops@.push(op)) =~= ops_view(ops@).push(op@));
                            assert(ops_view(ops@).push(op@) =~= ops_view(ops@) + pass1_ops(
                                a@,
                                None,
                            ));
                        }
                        ops.push(op);
                    } else {
                        proof {
                            assert(ops_view(ops@) + pass1_ops(a@, None) =~= ops_view(ops@));
                        }
                    }
                    Ok(())
                },
                crate::scan::change::Change::Added(e) => {
                    match e.target() {
                        Some(t) => {
                            let op1 = FsOp::CreateSymlink(bytes_dup(e.path()), bytes_dup(t));
                            let op2 = FsOp::SetMeta(
                                bytes_dup(e.path()),
                                e.mode(),
                                e.mtime(),
                                true,
                            );
                            proof {
                                assert(ops_view(ops@.push(op1).push(op2)) =~= ops_view(ops@).push(
                                    op1@,
                                ).push(op2@));
                                assert(ops_view(ops@).push(op1@).push(op2@) =~= ops_view(ops@)
                                    + pass1_ops(a@, None));
                            }
                            ops.push(op1);
                            ops.push(op2);
                            Ok(())
                        },
                        None => {
                            if e.is_dir() {
                                let op = FsOp::CreateDir(bytes_dup(e.path()));
                                proof {
                                    assert(ops_view(ops@.push(op)) =~= ops_view(ops@).push(op@));
                                    assert(ops_view(ops@).push(op@) =~= ops_view(ops@) + pass1_ops(
                                        a@,
                                        None,
                                    ));
                                }
                                ops.push(op);
                                Ok(())
                            } else {
                                if *jd >= details.len() {
                                    return Err(ApplyError::MissingDetail);
                                }
                                match &details[*jd] {
                                    ChangeDetails::Contents(v) => {
                                        let op1 = FsOp::WriteFile(
                                            bytes_dup(e.path()),
                                            bytes_dup(v),
                                        );
                                        let op2 = FsOp::SetMeta(
                                            bytes_dup(e.path()),
                                            e.mode(),
                                            e.mtime(),
                                            false,
                                        );
                                        proof {
                                            let det = Some(dvw[*jd as int]);
                                            assert(ops_view(ops@.push(op1).push(op2)) =~= ops_view(
                                                ops@,
                                            ).push(op1@).push(op2@));
                                            assert(ops_view(ops@).push(op1@).push(op2@)
                                                =~= ops_view(ops@) + pass1_ops(a@, det));
                                        }
                                        ops.push(op1);
                                        ops.push(op2);
                                        *jd += 1;
                                        Ok(())
                                    },
                                    ChangeDetails::Diff(_) => Err(ApplyError::WrongDetail),
                                }
                            }
                        },
                    }
                },
                crate::scan::change::Change::Modified(e1, e2) => {
                    if e1.is_file() {
                        if e2.is_file() {
                            if !e1.same_contents(e2) {
                                if *jd >= details.len() {
                                    return Err(ApplyError::MissingDetail);
                                }
                                match &details[*jd] {
                                    ChangeDetails::Diff(delta) => {
                                        let op1 = FsOp::PatchFile(
                                            bytes_dup(e2.path()),
                                            delta.duplicate(),
                                        );
                                        let op2 = FsOp::SetMeta(
                                            bytes_dup(e2.path()),
                                            e2.mode(),
                                            e2.mtime(),
                                            false,
                                        );
                                        proof {
                                            let det = Some(dvw[*jd as int]);
                                            assert(ops_view(ops@.push(op1).push(op2)) =~= ops_view(
                                                ops@,
                                            ).push(op1@).push(op2@));
                                            assert(ops_view(ops@).push(op1@).push(op2@)
                                                =~= ops_view(ops@) + pass1_ops(a@, det));
                                        }
                                        ops.push(op1);
                                        ops.push(op2);
                                        *jd += 1;
                                        Ok(())
                                    },
                                    ChangeDetails::Contents(_) => Err(ApplyError::WrongDetail),
                                }
                            } else {
                                let op = FsOp::SetMeta(
                                    bytes_dup(e2.path()),
                                    e2.mode(),
                                    e2.mtime(),
                                    false,
                                );
                                proof {
                                    assert(ops_view(ops@.push(op)) =~= ops_view(ops@).push(op@));
                                    assert(ops_view(ops@).push(op@) =~= ops_view(ops@) + pass1_ops(
                                        a@,
                                        None,
                                    ));
                                }
                                ops.push(op);
                                Ok(())
                            }
                        } else {
                            // the file goes; a symlink or a directory takes its place
                            let op0 = FsOp::RemoveFile(bytes_dup(e2.path()));
                            ops.push(op0);
                            match e2.target() {
                                Some(t) => {
                                    let op1 = FsOp::CreateSymlink(
                                        bytes_dup(e2.path()),
                                        bytes_dup(t),
                                    );
                                    let op2 = FsOp::SetMeta(
                                        bytes_dup(e2.path()),
                                        e2.mode(),
                                        e2.mtime(),
                                        true,
                                    );
                                    proof {
                                        assert(ops_view(ops@.push(op1).push(op2)) =~= ops_view(
                                            old(ops)@,
                                        ).push(op0@).push(op1@).push(op2@));
                                        assert(ops_view(old(ops)@).push(op0@).push(op1@).push(op2@)
                                            =~= ops_view(old(ops)@) + pass1_ops(a@, None));
                                    }
                                    ops.push(op1);
                                    ops.push(op2);
                                },
                                None => {
                                    let op1 = FsOp::CreateDir(bytes_dup(e2.path()));
                                    proof {
                                        assert(ops_view(ops@.push(op1)) =~= ops_view(
                                            old(ops)@,
                                        ).push(op0@).push(op1@));
                                        assert(ops_view(old(ops)@).push(op0@).push(op1@)
                                            =~= ops_view(old(ops)@) + pass1_ops(a@, None));
                                    }
                                    ops.push(op1);
                                },
                            }
                            Ok(())
                        }
                    } else if e1.is_symlink() {
                        let op0 = FsOp::RemoveFile(bytes_dup(e2.path()));
                        ops.push(op0);
                        if e2.is_file() {
                            if *jd >= details.len() {
                                proof {
                                    assert(ops@ =~= old(ops)@.push(op0));
                                }
                                // roll the removal back out of the plan before failing
                                let _ = ops.pop();
                                proof {
                                    assert(ops@ =~= old(ops)@);
                                }
                                return Err(ApplyError::MissingDetail);
                            }
                            match &details[*jd] {
                                ChangeDetails::Contents(v) => {
                                    let op1 = FsOp::WriteFile(bytes_dup(e2.path()), bytes_dup(v));
                                    let op2 = FsOp::SetMeta(
                                        bytes_dup(e2.path()),
                                        e2.mode(),
                                        e2.mtime(),
                                        false,
                                    );
                                    proof {
                                        let det = Some(dvw[*jd as int]);
                                        assert(ops_view(ops@.push(op1).push(op2)) =~= ops_view(
                                            old(ops)@,
                                        ).push(op0@).push(op1@).push(op2@));
                                        assert(ops_view(old(ops)@).push(op0@).push(op1@).push(op2@)
                                            =~= ops_view(old(ops)@) + pass1_ops(a@, det));
                                    }
                                    ops.push(op1);
                                    ops.push(op2);
                                    *jd += 1;
                                    Ok(())
                                },
                                ChangeDetails::Diff(_) => {
                                    proof {
                                        assert(ops@ =~= old(ops)@.push(op0));
                                    }
                                    let _ = ops.pop();
                                    proof {
                                        assert(ops@ =~= old(ops)@);
                                    }
                                    Err(ApplyError::WrongDetail)
                                },
                            }
                        } else {
                            match e2.target() {
                                Some(t) => {
                                    let op1 = FsOp::CreateSymlink(
                                        bytes_dup(e2.path()),
                                        bytes_dup(t),
                                    );
                                    let op2 = FsOp::SetMeta(
                                        bytes_dup(e2.path()),
                                        e2.mode(),
                                        e2.mtime(),
                                        true,
                                    );
                                    proof {
                                        assert(ops_view(ops@.push(op1).push(op2)) =~= ops_view(
                                            old(ops)@,
                                        ).push(op0@).push(op1@).push(op2@));
                                        assert(ops_view(old(ops)@).push(op0@).push(op1@).push(op2@)
                                            =~= ops_view(old(ops)@) + pass1_ops(a@, None));
                                    }
                                    ops.push(op1);
                                    ops.push(op2);
                                },
                                None => {
                                    if e2.is_dir() {
                                        let op1 = FsOp::CreateDir(bytes_dup(e2.path()));
                                        proof {
                                            assert(ops_view(ops@.push(op1)) =~= ops_view(
                                                old(ops)@,
                                            ).push(op0@).push(op1@));
                                            assert(ops_view(old(ops)@).push(op0@).push(op1@)
                                                =~= ops_view(old(ops)@) + pass1_ops(a@, None));
                                        }
                                        ops.push(op1);
                                    } else {
                                        proof {
                                            assert(ops@ =~= old(ops)@.push(op0));
                                        }
                                        let _ = ops.pop();
                                        proof {
                                            assert(ops@ =~= old(ops)@);
                                            assert(ops_view(ops@) + pass1_ops(a@, None)
                                                =~= ops_view(ops@));
                                        }
                                    }
                                },
                            }
                            Ok(())
                        }
                    } else {
                        // a directory is replaced or reshaped in the reverse pass;
                        // a directory-to-file change still consumes its contents here
                        if e2.is_file() {
                            if *jd >= details.len() {
                                return Err(ApplyError::MissingDetail);
                            }
                            match &details[*jd] {
                                ChangeDetails::Contents(_) => {
                                    proof {
                                        let det = Some(dvw[*jd as int]);
                                        assert(ops_view(ops@) + pass1_ops(a@, det) =~= ops_view(
                                            ops@,
                                        ));
                                    }
                                    *jd += 1;
                                    Ok(())
                                },
                                ChangeDetails::Diff(_) => Err(ApplyError::WrongDetail),
                            }
                        } else {
                            proof {
                                assert(ops_view(ops@) + pass1_ops(a@, None) =~= ops_view(ops@));
                            }
                            Ok(())
                        }
                    }
                },
            }
        },
        _ => {
            proof {
                assert(ops_view(ops@) + pass1_ops(a@, None) =~= ops_view(ops@));
            }
            Ok(())
        },
    }
}

/// Does this action consume a detail on the applying side?
fn action_needs_detail(a: &Action) -> (r: bool)
    ensures
        r == (recv_need(a@) is Some),
{
    match a {
        Action::Local(c) | Action::ResolvedLocal((_, _), c) => match c {
            crate::scan::change::Change::Added(e) => e.is_file(),
            crate::scan::change::Change::Modified(e1, e2) => (e1.is_file() && e2.is_file()
                && !e1.same_contents(e2)) || (!e1.is_file() && e2.is_file()),
            crate::scan::change::Change::Removed(_) => false,
        },
        _ => false,
    }
}

/// Emit the reverse-pass operations of one action, given the index of the
/// detail it consumed in the forward pass.
fn emit_pass2(a: &Action, details: &Vec<ChangeDetails>, cur: usize, ops: &mut Vec<FsOp>)
    requires
        recv_need(a@) is Some ==> cur < details@.len(),
    ensures
        ops_view(final(ops)@) == ops_view(old(ops)@) + pass2_ops(
            a@,
            if recv_need(a@) is Some {
                Some(details_view(details@)[cur as int])
            } else {
                None
            },
        ),
{
    let ghost det: Option<ChangeDetailsV> = if recv_need(a@) is Some {
        Some(details_view(details@)[cur as int])
    } else {
        None
    };
    match a {
        Action::Local(c) | Action::ResolvedLocal((_, _), c) => {
            if !c.is_dir() {
                proof {
                    assert(ops_view(ops@) + pass2_ops(a@, det) =~= ops_view(ops@));
                }
                return ;
            }
            match c {
                crate::scan::change::Change::Removed(e) => {
                    let op = FsOp::RemoveDir(bytes_dup(e.path()));
                    proof {
                        assert(ops_view(ops@.push(op)) =~= ops_view(ops@).push(op@));
                        assert(ops_view(ops@).push(op@) =~= ops_view(ops@) + pass2_ops(a@, det));
                    }
                    ops.push(op);
                },
                crate::scan::change::Change::Added(e) => {
                    let op = FsOp::SetMeta(bytes_dup(e.path()), e.mode(), e.mtime(), e.is_symlink());
                    proof {
                        assert(ops_view(ops@.push(op)) =~= ops_view(ops@).push(op@));
                        assert(ops_view(ops@).push(op@) =~= ops_view(ops@) + pass2_ops(a@, det));
                    }
                    ops.push(op);
                },
                crate::scan::change::Change::Modified(e1, e2) => {
                    if e1.is_dir() && !e2.is_dir() {
                        let op0 = FsOp::RemoveDir(bytes_dup(e2.path()));
                        ops.push(op0);
                        match e2.target() {
                            Some(t) => {
                                let op1 = FsOp::CreateSymlink(bytes_dup(e2.path()), bytes_dup(t));
                                let op2 = FsOp::SetMeta(
                                    bytes_dup(e2.path()),
                                    e2.mode(),
                                    e2.mtime(),
                                    true,
                                );
                                proof {
                                    assert(ops_view(ops@.push(op1).push(op2)) =~= ops_view(
                                        old(ops)@,
                                    ).push(op0@).push(op1@).push(op2@));
                                    assert(ops_view(old(ops)@).push(op0@).push(op1@).push(op2@)
                                        =~= ops_view(old(ops)@) + pass2_ops(a@, det));
                                }
                                ops.push(op1);
                                ops.push(op2);
                            },
                            None => {
                                if e2.is_file() {
                                    let contents: Vec<u8> = match &details[cur] {
                                        ChangeDetails::Contents(v) => bytes_dup(v),
                                        ChangeDetails::Diff(_) => Vec::new(),
                                    };
                                    let op1 = FsOp::WriteFile(bytes_dup(e2.path()), contents);
                                    let op2 = FsOp::SetMeta(
                                        bytes_dup(e2.path()),
                                        e2.mode(),
                                        e2.mtime(),
                                        false,
                                    );
                                    proof {
                                        assert(op1@ == FsOpV::WriteFile(
                                            e2@.path,
                                            detail_contents(det),
                                        ));
                                        assert(ops_view(ops@.push(op1).push(op2)) =~= ops_view(
                                            old(ops)@,
                                        ).push(op0@).push(op1@).push(op2@));
                                        assert(ops_view(old(ops)@).push(op0@).push(op1@).push(op2@)
                                            =~= ops_view(old(ops)@) + pass2_ops(a@, det));
                                    }
                                    ops.push(op1);
                                    ops.push(op2);
                                } else {
                                    let op2 = FsOp::SetMeta(
                                        bytes_dup(e2.path()),
                                        e2.mode(),
                                        e2.mtime(),
                                        false,
                                    );
                                    proof {
                                        assert(ops_view(ops@.push(op2)) =~= ops_view(
                                            old(ops)@,
                                        ).push(op0@).push(op2@));
                                        assert(ops_view(old(ops)@).push(op0@).push(op2@)
                                            =~= ops_view(old(ops)@) + pass2_ops(a@, det));
                                    }
                                    ops.push(op2);
                                }
                            },
                        }
                    } else {
                        let op2 = FsOp::SetMeta(
                            bytes_dup(e2.path()),
                            e2.mode(),
                            e2.mtime(),
                            e2.is_symlink(),
                        );
                        proof {
                            assert(ops_view(ops@.push(op2)) =~= ops_view(ops@).push(op2@));
                            assert(ops_view(ops@).push(op2@) =~= ops_view(ops@) + pass2_ops(
                                a@,
                                det,
                            ));
                        }
                        ops.push(op2);
                    }
                },
            }
        },
        _ => {
            proof {
                assert(ops_view(ops@) + pass2_ops(a@, det) =~= ops_view(ops@));
            }
        },
    }
}

/// The details the first `k` actions consume plus those the rest consume are
/// all of them.
proof fn lemma_needs_upto_bound(s: Seq<ActionV>, k: int)
    requires
        0 <= k <= s.len(),
    ensures
        needed_kinds(s).len() == needs_upto(s, k) + needed_kinds(s.skip(k)).len(),
        0 <= needs_upto(s, k) <= k,
    decreases k,
{
    if k == 0 {
        assert(s.skip(0) =~= s);
    } else {
        lemma_needs_upto_bound(s, k - 1);
        assert(s.skip(k - 1)[0] == s[k - 1]);
        assert(s.skip(k - 1).skip(1) =~= s.skip(k));
    }
}

/// Turn the resolved actions, their paired details and the previous snapshot
/// into the ordered filesystem operations of the apply and the next snapshot.
///
/// `all_old` becomes the post-apply snapshot ([`apply_entries_spec`]). The
/// returned operations are the forward pass over the actions in order
/// ([`plan1_spec`]) followed by the reverse pass ([`plan2_spec`]). The call
/// succeeds exactly when the details list begins with the kinds the actions
/// consume, pairing by position; otherwise nothing is changed.
pub fn apply_detailed_changes(
    actions: &Vec<Action>,
    details: &Vec<ChangeDetails>,
    all_old: &mut Vec<DirEntryWithMeta>,
) -> (r: Result<Vec<FsOp>, ApplyError>)
    ensures
        r is Ok ==> details_match(actions_view(actions@), details_view(details@)),
        r is Err ==> !details_match(actions_view(actions@), details_view(details@)) && final(
            all_old
        )@ == old(all_old)@,
        r is Ok ==> entries_view(final(all_old)@) == apply_entries_spec(
            actions_view(actions@),
            entries_view(old(all_old)@),
        ),
        match r {
            Ok(ops) => ops_view(ops@) == plan1_spec(actions_view(actions@), details_view(details@))
                + plan2_spec(actions_view(actions@), details_view(details@)),
            Err(_) => true,
        },
        r is Ok && actions_sorted(actions_view(actions@)) && crate::scan::entries_sorted(
            entries_view(old(all_old)@),
        ) ==> crate::scan::entries_sorted(entries_view(final(all_old)@)) && forall|p: Seq<u8>|
            #[trigger] find_entry(entries_view(final(all_old)@), p) == expected_at(
                actions_view(actions@),
                entries_view(old(all_old)@),
                p,
            ),
{
    let ghost av = actions_view(actions@);
    let ghost dv = details_view(details@);
    let ghost oldv = entries_view(all_old@);
    let n_act: usize = actions.len();
    let n_old: usize = all_old.len();
    let n_det: usize = details.len();
    let mut ops: Vec<FsOp> = Vec::new();
    let mut new_entries: Vec<DirEntryWithMeta> = Vec::new();
    let mut k: usize = 0;
    let mut i: usize = 0;
    let mut jd: usize = 0;
    proof {
        assert(av.skip(0) =~= av);
        assert(oldv.skip(0) =~= oldv);
        assert(dv.skip(0) =~= dv);
        assert(entries_view(new_entries@) + apply_entries_spec(av, oldv) =~= apply_entries_spec(
            av,
            oldv,
        ));
        assert(ops_view(ops@) + plan1_spec(av, dv) =~= plan1_spec(av, dv));
        assert(details_kinds(dv).take(0) =~= Seq::<DetailKind>::empty());
        assert(Seq::<DetailKind>::empty() + needed_kinds(av) =~= needed_kinds(av));
    }
    while k < n_act
        invariant
            0 <= k <= n_act,
            0 <= i <= n_old,
            0 <= jd <= n_det,
            n_act == actions@.len(),
            n_old == all_old@.len(),
            n_det == details@.len(),
            av == actions_view(actions@),
            dv == details_view(details@),
            all_old@ == old(all_old)@,
            oldv == entries_view(all_old@),
            jd == needs_upto(av, k as int),
            needed_kinds(av) == details_kinds(dv).take(jd as int) + needed_kinds(
                av.skip(k as int),
            ),
            apply_entries_spec(av, oldv) == entries_view(new_entries@) + apply_entries_spec(
                av.skip(k as int),
                oldv.skip(i as int),
            ),
            plan1_spec(av, dv) == ops_view(ops@) + plan1_spec(av.skip(k as int), dv.skip(jd as int)),
        decreases n_act - k + n_old - i,
    {
        let ghost ra = av.skip(k as int);
        let ghost ro = oldv.skip(i as int);
        proof {
            assert(ra[0] == av[k as int]);
            assert(ra.skip(1) =~= av.skip(k as int + 1));
            if i < n_old {
                assert(ro[0] == oldv[i as int]);
                assert(ro.skip(1) =~= oldv.skip(i as int + 1));
            }
        }
        if i < n_old && crate::paths::bytes_lt(all_old[i].path(), actions[k].path()) {
            let e = all_old[i].duplicate();
            proof {
                assert(apply_entries_spec(ra, ro) == seq![ro[0]] + apply_entries_spec(
                    ra,
                    ro.skip(1),
                ));
                assert(entries_view(new_entries@.push(e)) =~= entries_view(new_entries@).push(e@));
                assert(entries_view(new_entries@).push(e@) + apply_entries_spec(
                    ra,
                    oldv.skip(i as int + 1),
                ) =~= entries_view(new_entries@) + apply_entries_spec(ra, ro));
            }
            new_entries.push(e);
            i += 1;
        } else {
            let equal_path = i < n_old && crate::paths::bytes_eq(
                all_old[i].path(),
                actions[k].path(),
            );
            let ghost jd0 = jd as int;
            let ghost ops0 = ops@;
            let fail = {
                let prior: Option<&DirEntryWithMeta> = if equal_path {
                    Some(&all_old[i])
                } else {
                    None
                };
                match emit_pass1(&actions[k], details, &mut jd, &mut ops) {
                    Ok(_) => {
                        let ent = action_entry(&actions[k], prior);
                        let ghost prior_v: Option<EntryV> = if equal_path {
                            Some(ro[0])
                        } else {
                            None
                        };
                        proof {
                            if equal_path {
                                assert(ro[0].path == ra[0].path());
                                assert(apply_entries_spec(ra, ro) == opt_entry_seq(
                                    action_result_entry(ra[0], Some(ro[0])),
                                ) + apply_entries_spec(ra.skip(1), ro.skip(1)));
                            } else {
                                if i < n_old {
                                    crate::paths::lemma_lex_lt_total(ro[0].path, ra[0].path());
                                }
                                assert(apply_entries_spec(ra, ro) == opt_entry_seq(
                                    action_result_entry(ra[0], None),
                                ) + apply_entries_spec(ra.skip(1), ro));
                            }
                        }
                        match ent {
                            Some(e) => {
                                proof {
                                    assert(opt_entry_seq(action_result_entry(ra[0], prior_v))
                                        =~= seq![e@]);
                                    assert(entries_view(new_entries@.push(e)) =~= entries_view(
                                        new_entries@,
                                    ).push(e@));
                                }
                                new_entries.push(e);
                            },
                            None => {
                                proof {
                                    assert(opt_entry_seq(action_result_entry(ra[0], prior_v))
                                        =~= Seq::<EntryV>::empty());
                                }
                            },
                        }
                        None
                    },
                    Err(err) => Some(err),
                }
            };
            match fail {
                Some(err) => {
                    proof {
                        // the needed kind at position jd is not served by the details
                        let kinds = details_kinds(dv);
                        let need_rest = needed_kinds(ra);
                        assert(recv_need(ra[0]) is Some);
                        let kk = recv_need(ra[0]).unwrap();
                        assert(need_rest == seq![kk] + needed_kinds(ra.skip(1)));
                        assert(kinds.take(jd0).len() == jd0);
                        assert(needed_kinds(av).len() >= jd0 + 1);
                        assert(needed_kinds(av)[jd0] == kk);
                        if jd0 >= dv.len() {
                            assert(needed_kinds(av).len() > dv.len());
                            assert(!details_match(av, dv));
                        } else {
                            assert(detail_kind(dv[jd0]) != kk);
                            assert(!details_match(av, dv));
                        }
                    }
                    return Err(err);
                },
                None => {},
            }
            proof {
                let ghost rd = dv.skip(jd0);
                match recv_need(ra[0]) {
                    Some(kk) => {
                        assert(jd0 < n_det);
                        assert(rd[0] == dv[jd0]);
                        assert(rd.skip(1) =~= dv.skip(jd0 + 1));
                        assert(jd == jd0 + 1);
                        assert(plan1_spec(ra, rd) == pass1_ops(ra[0], Some(dv[jd0])) + plan1_spec(
                            ra.skip(1),
                            dv.skip(jd0 + 1),
                        ));
                        assert(ops_view(ops@) =~= ops_view(ops0) + pass1_ops(
                            ra[0],
                            Some(dv[jd0]),
                        ));
                        assert(ops_view(ops@) + plan1_spec(av.skip(k as int + 1), dv.skip(jd as int))
                            =~= ops_view(ops0) + plan1_spec(ra, rd));
                        // the kinds consumed so far now include this one
                        assert(details_kinds(dv).take(jd0 + 1) =~= details_kinds(dv).take(
                            jd0,
                        ).push(detail_kind(dv[jd0])));
                        assert(needed_kinds(ra) == seq![kk] + needed_kinds(ra.skip(1)));
                        assert(detail_kind(dv[jd0]) == kk);
                        assert(details_kinds(dv).take(jd0 + 1) + needed_kinds(av.skip(k as int + 1))
                            =~= details_kinds(dv).take(jd0) + needed_kinds(ra));
                    },
                    None => {
                        assert(jd == jd0);
                        assert(plan1_spec(ra, rd) == pass1_ops(ra[0], None) + plan1_spec(
                            ra.skip(1),
                            rd,
                        ));
                        assert(ops_view(ops@) =~= ops_view(ops0) + pass1_ops(ra[0], None));
                        assert(ops_view(ops@) + plan1_spec(av.skip(k as int + 1), dv.skip(jd as int))
                            =~= ops_view(ops0) + plan1_spec(ra, rd));
                        assert(needed_kinds(ra) == Seq::<DetailKind>::empty() + needed_kinds(
                            ra.skip(1),
                        ));
                        assert(Seq::<DetailKind>::empty() + needed_kinds(ra.skip(1))
                            =~= needed_kinds(ra.skip(1)));
                    },
                }
                assert(needs_upto(av, k as int + 1) == jd);
            }
            if equal_path {
                i += 1;
            }
            k += 1;
        }
    }
    proof {
        assert(needed_kinds(av.skip(k as int)).len() == 0);
        assert(needed_kinds(av) =~= details_kinds(dv).take(jd as int));
        assert forall|q: int| 0 <= q < needed_kinds(av).len() implies (#[trigger] needed_kinds(
            av,
        )[q]) == detail_kind(dv[q]) by {
            assert(needed_kinds(av)[q] == details_kinds(dv).take(jd as int)[q]);
            assert(details_kinds(dv)[q] == detail_kind(dv[q]));
        }
        assert(details_match(av, dv));
    }
    // copy the remaining old entries through
    while i < n_old
        invariant
            0 <= i <= n_old,
            n_old == all_old@.len(),
            all_old@ == old(all_old)@,
            oldv == entries_view(all_old@),
            apply_entries_spec(av, oldv) == entries_view(new_entries@) + oldv.skip(i as int),
        decreases n_old - i,
    {
        let e = all_old[i].duplicate();
        proof {
            assert(oldv.skip(i as int) =~= seq![oldv[i as int]] + oldv.skip(i as int + 1));
            assert(entries_view(new_entries@.push(e)) =~= entries_view(new_entries@).push(e@));
            assert(entries_view(new_entries@).push(e@) + oldv.skip(i as int + 1) =~= entries_view(
                new_entries@,
            ) + oldv.skip(i as int));
        }
        new_entries.push(e);
        i += 1;
    }
    proof {
        assert(oldv.skip(i as int) =~= Seq::<EntryV>::empty());
        assert(entries_view(new_entries@) + Seq::<EntryV>::empty() =~= entries_view(new_entries@));
    }
    // reverse pass: directory removals, replacements and metadata
    let mut k2: usize = n_act;
    let mut cur: usize = jd;
    proof {
        assert(av.skip(n_act as int).len() == 0);
        assert(plan2_spec(av.skip(k2 as int), dv.skip(cur as int)) =~= Seq::<FsOpV>::empty());
        assert(ops_view(ops@) + Seq::<FsOpV>::empty() =~= ops_view(ops@));
        assert(plan1_spec(av.skip(k as int), dv.skip(jd as int)) =~= Seq::<FsOpV>::empty());
        assert(ops_view(ops@) =~= plan1_spec(av, dv));
    }
    while k2 > 0
        invariant
            0 <= k2 <= n_act,
            n_act == actions@.len(),
            n_det == details@.len(),
            av == actions_view(actions@),
            dv == details_view(details@),
            all_old@ == old(all_old)@,
            details_match(av, dv),
            cur == needs_upto(av, k2 as int),
            0 <= cur <= n_det,
            ops_view(ops@) == plan1_spec(av, dv) + plan2_spec(
                av.skip(k2 as int),
                dv.skip(cur as int),
            ),
        decreases k2,
    {
        k2 -= 1;
        let ghost ra1 = av.skip(k2 as int);
        let ghost cur0 = cur as int;
        proof {
            assert(ra1[0] == av[k2 as int]);
            assert(ra1.skip(1) =~= av.skip(k2 as int + 1));
            assert(needs_upto(av, k2 as int + 1) == needs_upto(av, k2 as int) + (
            if recv_need(av[k2 as int]) is Some {
                1int
            } else {
                0int
            }));
        }
        let needs = action_needs_detail(&actions[k2]);
        if needs {
            proof {
                lemma_needs_upto_bound(av, k2 as int);
                assert(needed_kinds(ra1).len() >= 1) by {
                    assert(needed_kinds(ra1) == seq![recv_need(ra1[0]).unwrap()] + needed_kinds(
                        ra1.skip(1),
                    ));
                }
                assert(needs_upto(av, k2 as int) < needed_kinds(av).len());
                assert(needed_kinds(av).len() <= dv.len());
            }
            cur -= 1;
        }
        let ghost det: Option<ChangeDetailsV> = if recv_need(av[k2 as int]) is Some {
            Some(dv[cur as int])
        } else {
            None
        };
        let ghost ops_before = ops@;
        proof {
            let rd1 = dv.skip(cur as int);
            if recv_need(ra1[0]) is Some {
                assert((cur as int) < n_det);
                assert(rd1[0] == dv[cur as int]);
                assert(rd1.skip(1) =~= dv.skip(cur as int + 1));
                assert(cur0 == cur + 1);
            } else {
                assert(cur0 == cur);
            }
            assert(plan2_spec(ra1, rd1) == plan2_spec(av.skip(k2 as int + 1), dv.skip(cur0))
                + pass2_ops(ra1[0], det));
        }
        emit_pass2(&actions[k2], details, cur, &mut ops);
        proof {
            assert(ops_view(ops@) =~= ops_view(ops_before) + pass2_ops(av[k2 as int], det));
            assert(ops_view(ops@) =~= plan1_spec(av, dv) + plan2_spec(
                av.skip(k2 as int),
                dv.skip(cur as int),
            ));
        }
    }
    proof {
        assert(av.skip(0) =~= av);
        assert(dv.skip(0) =~= dv);
        if actions_sorted(av) && crate::scan::entries_sorted(oldv) {
            lemma_apply_entries_sorted(av, oldv);
            assert forall|p: Seq<u8>|
                #[trigger] find_entry(apply_entries_spec(av, oldv), p) == expected_at(
                    av,
                    oldv,
                    p,
                ) by {
                lemma_apply_entries_find(av, oldv, p);
            }
        }
    }
    *all_old = new_entries;
    Ok(ops)
}

/// The first entry at path `p`, if any.
pub open spec fn find_entry(s: Seq<EntryV>, p: Seq<u8>) -> Option<EntryV>
    decreases s.len(),
{
    if s.len() == 0 {
        None
    } else if s[0].path == p {
        Some(s[0])
    } else {
        find_entry(s.skip(1), p)
    }
}

/// The first action at path `p`, if any.
pub open spec fn find_action(s: Seq<ActionV>, p: Seq<u8>) -> Option<ActionV>
    decreases s.len(),
{
    if s.len() == 0 {
        None
    } else if s[0].path() == p {
        Some(s[0])
    } else {
        find_action(s.skip(1), p)
    }
}

/// Actions strictly sorted by path.
pub open spec fn actions_sorted(s: Seq<ActionV>) -> bool {
    forall|i: int, j: int| 0 <= i < j < s.len() ==> crate::paths::lex_lt(s[i].path(), s[j].path())
}

/// What the snapshot holds at `p` after applying `s` over `old`: the action
/// at `p` decides, and paths no action names keep their old entry.
pub open spec fn expected_at(s: Seq<ActionV>, old: Seq<EntryV>, p: Seq<u8>) -> Option<EntryV> {
    match find_action(s, p) {
        Some(a) => action_result_entry(a, find_entry(old, p)),
        None => find_entry(old, p),
    }
}

proof fn lemma_entries_sorted_skip(s: Seq<EntryV>)
    requires
        crate::scan::entries_sorted(s),
        s.len() > 0,
    ensures
        crate::scan::entries_sorted(s.skip(1)),
{
    assert forall|i: int, j: int| 0 <= i < j < s.skip(1).len() implies crate::paths::lex_lt(
        s.skip(1)[i].path,
        s.skip(1)[j].path,
    ) by {
        assert(s.skip(1)[i] == s[i + 1]);
        assert(s.skip(1)[j] == s[j + 1]);
    }
}

proof fn lemma_actions_sorted_skip(s: Seq<ActionV>)
    requires
        actions_sorted(s),
        s.len() > 0,
    ensures
        actions_sorted(s.skip(1)),
{
    assert forall|i: int, j: int| 0 <= i < j < s.skip(1).len() implies crate::paths::lex_lt(
        s.skip(1)[i].path(),
        s.skip(1)[j].path(),
    ) by {
        assert(s.skip(1)[i] == s[i + 1]);
        assert(s.skip(1)[j] == s[j + 1]);
    }
}

/// In a sorted entry list whose head already sorts above `p`, `p` is absent.
proof fn lemma_find_entry_above(s: Seq<EntryV>, p: Seq<u8>)
    requires
        crate::scan::entries_sorted(s),
        s.len() > 0 ==> crate::paths::lex_lt(p, s[0].path),
    ensures
        find_entry(s, p) is None,
    decreases s.len(),
{
    if s.len() > 0 {
        crate::paths::lemma_lex_lt_asym(p, s[0].path);
        lemma_entries_sorted_skip(s);
        if s.len() > 1 {
            assert(s.skip(1)[0] == s[1]);
            crate::paths::lemma_lex_lt_trans(p, s[0].path, s[1].path);
        }
        lemma_find_entry_above(s.skip(1), p);
    }
}

/// In a sorted action list whose head already sorts above `p`, `p` is absent.
proof fn lemma_find_action_above(s: Seq<ActionV>, p: Seq<u8>)
    requires
        actions_sorted(s),
        s.len() > 0 ==> crate::paths::lex_lt(p, s[0].path()),
    ensures
        find_action(s, p) is None,
    decreases s.len(),
{
    if s.len() > 0 {
        crate::paths::lemma_lex_lt_asym(p, s[0].path());
        lemma_actions_sorted_skip(s);
        if s.len() > 1 {
            assert(s.skip(1)[0] == s[1]);
            crate::paths::lemma_lex_lt_trans(p, s[0].path(), s[1].path());
        }
        lemma_find_action_above(s.skip(1), p);
    }
}

/// A non-conflict action's result entry sits at the action's own path.
proof fn lemma_result_entry_path(a: ActionV, prior: Option<EntryV>, e: EntryV)
    requires
        action_result_entry(a, prior) == Some(e),
        a is Conflict ==> prior == Some(e),
        !(a is Conflict) ==> true,
    ensures
        !(a is Conflict) ==> e.path == a.path(),
{
    match a {
        ActionV::Local(c) | ActionV::ResolvedLocal(_, c) | ActionV::Remote(c)
            | ActionV::ResolvedRemote(_, c) | ActionV::Identical(c, _) => {
            match c {
                ChangeV::Added(_) => {},
                ChangeV::Removed(_) => {},
                ChangeV::Modified(_, _) => {},
            }
        },
        ActionV::Conflict(_, _) => {},
    }
}

/// Where each path ends up: the apply's merged snapshot holds, at every path,
/// exactly what [`expected_at`] says — the action's outcome where an action
/// names the path, the old entry elsewhere.
pub proof fn lemma_apply_entries_find(s: Seq<ActionV>, old: Seq<EntryV>, p: Seq<u8>)
    requires
        actions_sorted(s),
        crate::scan::entries_sorted(old),
    ensures
        find_entry(apply_entries_spec(s, old), p) == expected_at(s, old, p),
    decreases s.len() + old.len(),
{
    let res = apply_entries_spec(s, old);
    if s.len() == 0 {
    } else if old.len() > 0 && crate::paths::lex_lt(old[0].path, s[0].path()) {
        let rest = apply_entries_spec(s, old.skip(1));
        assert(res == seq![old[0]] + rest);
        assert(res[0] == old[0]);
        assert(res.skip(1) =~= rest);
        lemma_entries_sorted_skip(old);
        lemma_apply_entries_find(s, old.skip(1), p);
        if old[0].path == p {
            lemma_find_action_above(s, p);
        } else {
            if old.len() > 1 {
                assert(old.skip(1)[0] == old[1]);
            }
        }
    } else if old.len() > 0 && old[0].path == s[0].path() {
        let r0 = action_result_entry(s[0], Some(old[0]));
        let rest = apply_entries_spec(s.skip(1), old.skip(1));
        assert(res == opt_entry_seq(r0) + rest);
        lemma_entries_sorted_skip(old);
        lemma_actions_sorted_skip(s);
        lemma_apply_entries_find(s.skip(1), old.skip(1), p);
        let ghost head_path = s[0].path();
        if s[0].path() == p {
            match r0 {
                Some(e) => {
                    lemma_result_entry_path(s[0], Some(old[0]), e);
                    assert(e.path == p);
                    assert(res[0] == e);
                    assert(find_entry(res, p) == Some(e));
                },
                None => {
                    assert(res =~= rest);
                    if s.len() > 1 {
                        assert(s.skip(1)[0] == s[1]);
                    }
                    lemma_find_action_above(s.skip(1), p);
                    if old.len() > 1 {
                        assert(old.skip(1)[0] == old[1]);
                    }
                    lemma_find_entry_above(old.skip(1), p);
                },
            }
        } else {
            match r0 {
                Some(e) => {
                    lemma_result_entry_path(s[0], Some(old[0]), e);
                    assert(e.path == head_path);
                    assert(res[0] == e);
                    assert(res.skip(1) =~= rest);
                },
                None => {
                    assert(res =~= rest);
                },
            }
        }
    } else {
        // the action's path precedes every old entry (or none are left)
        if old.len() > 0 {
            crate::paths::lemma_lex_lt_total(old[0].path, s[0].path());
        }
        let r0 = action_result_entry(s[0], None);
        let rest = apply_entries_spec(s.skip(1), old);
        assert(res == opt_entry_seq(r0) + rest);
        lemma_actions_sorted_skip(s);
        lemma_apply_entries_find(s.skip(1), old, p);
        if s[0].path() == p {
            lemma_find_entry_above(old, p);
            assert(find_entry(old, p) is None);
            match r0 {
                Some(e) => {
                    lemma_result_entry_path(s[0], None, e);
                    assert(res[0] == e);
                },
                None => {
                    assert(res =~= rest);
                    if s.len() > 1 {
                        assert(s.skip(1)[0] == s[1]);
                    }
                    lemma_find_action_above(s.skip(1), p);
                },
            }
        } else {
            match r0 {
                Some(e) => {
                    lemma_result_entry_path(s[0], None, e);
                    assert(res[0] == e);
                    assert(res.skip(1) =~= rest);
                },
                None => {
                    assert(res =~= rest);
                },
            }
        }
    }
}

/// The smaller of the two next paths; meaningful when one list is non-empty.
pub open spec fn apply_head_min(s: Seq<ActionV>, old: Seq<EntryV>) -> Seq<u8> {
    if old.len() == 0 {
        s[0].path()
    } else if s.len() == 0 {
        old[0].path
    } else if crate::paths::lex_lt(old[0].path, s[0].path()) {
        old[0].path
    } else {
        s[0].path()
    }
}

/// The apply's merged snapshot stays strictly sorted by path.
pub proof fn lemma_apply_entries_sorted(s: Seq<ActionV>, old: Seq<EntryV>)
    requires
        actions_sorted(s),
        crate::scan::entries_sorted(old),
    ensures
        crate::scan::entries_sorted(apply_entries_spec(s, old)),
        forall|k: int|
            0 <= k < apply_entries_spec(s, old).len() && s.len() + old.len() > 0
                ==> !crate::paths::lex_lt(
                (#[trigger] apply_entries_spec(s, old)[k]).path,
                apply_head_min(s, old),
            ),
    decreases s.len() + old.len(),
{
    let res = apply_entries_spec(s, old);
    if s.len() == 0 {
        if old.len() > 0 {
            assert forall|k: int| 0 <= k < res.len() implies !crate::paths::lex_lt(
                res[k].path,
                apply_head_min(s, old),
            ) by {
                if k == 0 {
                    crate::paths::lemma_lex_lt_irrefl(old[0].path);
                } else {
                    crate::paths::lemma_lex_lt_asym(old[0].path, old[k].path);
                }
            }
        }
    } else {
        let hm = apply_head_min(s, old);
        if old.len() > 0 && crate::paths::lex_lt(old[0].path, s[0].path()) {
            let rest = apply_entries_spec(s, old.skip(1));
            assert(res == seq![old[0]] + rest);
            lemma_entries_sorted_skip(old);
            lemma_apply_entries_sorted(s, old.skip(1));
            assert(hm == old[0].path);
            crate::paths::lemma_lex_lt_irrefl(old[0].path);
            if rest.len() > 0 {
                let hm2 = apply_head_min(s, old.skip(1));
                assert(crate::paths::lex_lt(old[0].path, hm2)) by {
                    if old.skip(1).len() > 0 {
                        assert(old.skip(1)[0] == old[1]);
                    }
                }
                assert forall|k: int| 0 <= k < rest.len() implies crate::paths::lex_lt(
                    old[0].path,
                    rest[k].path,
                ) && !crate::paths::lex_lt(rest[k].path, old[0].path) by {
                    crate::scan::change::lemma_bound_down(rest[k].path, hm2, old[0].path);
                }
            }
            assert forall|i: int, j: int| 0 <= i < j < res.len() implies crate::paths::lex_lt(
                res[i].path,
                res[j].path,
            ) by {
                if i > 0 {
                    assert(res[i] == rest[i - 1]);
                }
                assert(res[j] == rest[j - 1]);
            }
            assert forall|k: int| 0 <= k < res.len() implies !crate::paths::lex_lt(
                res[k].path,
                hm,
            ) by {
                if k > 0 {
                    assert(res[k] == rest[k - 1]);
                }
            }
        } else {
            // an action is consumed, with or without a matching old entry
            let both = old.len() > 0 && old[0].path == s[0].path();
            if old.len() > 0 && !both {
                crate::paths::lemma_lex_lt_total(old[0].path, s[0].path());
            }
            let prior: Option<EntryV> = if both {
                Some(old[0])
            } else {
                None
            };
            let r0 = action_result_entry(s[0], prior);
            let old2 = if both {
                old.skip(1)
            } else {
                old
            };
            let rest = apply_entries_spec(s.skip(1), old2);
            assert(res == opt_entry_seq(r0) + rest);
            lemma_actions_sorted_skip(s);
            if both {
                lemma_entries_sorted_skip(old);
            }
            lemma_apply_entries_sorted(s.skip(1), old2);
            assert(hm == s[0].path());
            crate::paths::lemma_lex_lt_irrefl(s[0].path());
            if rest.len() > 0 {
                let hm2 = apply_head_min(s.skip(1), old2);
                assert(crate::paths::lex_lt(s[0].path(), hm2)) by {
                    if s.skip(1).len() > 0 {
                        assert(s.skip(1)[0] == s[1]);
                    }
                    if old2.len() > 0 {
                        if both {
                            assert(old2[0] == old[1]);
                            assert(crate::paths::lex_lt(old[0].path, old[1].path));
                        }
                    }
                }
                assert forall|k: int| 0 <= k < rest.len() implies crate::paths::lex_lt(
                    s[0].path(),
                    rest[k].path,
                ) && !crate::paths::lex_lt(rest[k].path, s[0].path()) by {
                    crate::scan::change::lemma_bound_down(rest[k].path, hm2, s[0].path());
                }
            }
            match r0 {
                Some(e) => {
                    lemma_result_entry_path(s[0], prior, e);
                    assert(e.path == s[0].path());
                    assert(res[0] == e);
                    assert forall|i: int, j: int| 0 <= i < j < res.len() implies
                        crate::paths::lex_lt(res[i].path, res[j].path) by {
                        if i > 0 {
                            assert(res[i] == rest[i - 1]);
                        }
                        assert(res[j] == rest[j - 1]);
                    }
                    assert forall|k: int| 0 <= k < res.len() implies !crate::paths::lex_lt(
                        res[k].path,
                        hm,
                    ) by {
                        if k > 0 {
                            assert(res[k] == rest[k - 1]);
                        }
                    }
                },
                None => {
                    assert(res =~= rest);
                    assert forall|k: int| 0 <= k < res.len() implies !crate::paths::lex_lt(
                        res[k].path,
                        hm,
                    ) by {
                        assert(crate::paths::lex_lt(s[0].path(), res[k].path));
                        crate::paths::lemma_lex_lt_asym(s[0].path(), res[k].path);
                    }
                },
            }
        }
    }
}

/// Entries that describe the same tree state on the two sides: same path and
/// the same cross-machine fingerprint (inode and checksum may differ).
pub open spec fn entry_equiv(a: Option<EntryV>, b: Option<EntryV>) -> bool {
    match (a, b) {
        (None, None) => true,
        (Some(x), Some(y)) => x.path == y.path && crate::scan::change::fingerprint_same(x, y),
        _ => false,
    }
}

/// Shape that pairing gives the action list: the two changes of a conflict or
/// an identical record name one path, and identical records agree on their
/// fingerprints.
pub open spec fn pairing_wf(s: Seq<ActionV>) -> bool {
    forall|k: int|
        0 <= k < s.len() ==> match #[trigger] s[k] {
            ActionV::Identical(l, r) => crate::scan::change::change_same(l, r) && l.path()
                == r.path(),
            ActionV::Conflict(l, r) => l.path() == r.path(),
            _ => true,
        }
}

/// A found action is an element of the list.
proof fn lemma_find_action_elem(s: Seq<ActionV>, p: Seq<u8>, a: ActionV)
    requires
        find_action(s, p) == Some(a),
    ensures
        exists|k: int| 0 <= k < s.len() && s[k] == a,
    decreases s.len(),
{
    if s.len() > 0 {
        if s[0].path() == p {
            assert(s[0] == a);
        } else {
            lemma_find_action_elem(s.skip(1), p, a);
            let k = choose|k: int| 0 <= k < s.skip(1).len() && s.skip(1)[k] == a;
            assert(s[k + 1] == a);
        }
    }
}

/// Reversing keeps each action at its path, so the peer finds the reversed
/// action exactly where this side finds the original.
proof fn lemma_find_action_reverse(s: Seq<ActionV>, p: Seq<u8>)
    requires
        pairing_wf(s),
    ensures
        match find_action(s, p) {
            Some(a) => find_action(reverse_spec(s), p) == Some(reverse_one(a)),
            None => find_action(reverse_spec(s), p) is None,
        },
    decreases s.len(),
{
    if s.len() > 0 {
        assert(reverse_spec(s)[0] == reverse_one(s[0]));
        assert(reverse_one(s[0]).path() == s[0].path()) by {
            assert(match s[0] {
                ActionV::Identical(l, r) => crate::scan::change::change_same(l, r) && l.path()
                    == r.path(),
                ActionV::Conflict(l, r) => l.path() == r.path(),
                _ => true,
            });
        }
        assert(reverse_spec(s).skip(1) =~= reverse_spec(s.skip(1)));
        assert forall|k: int| 0 <= k < s.skip(1).len() implies match #[trigger] s.skip(1)[k] {
            ActionV::Identical(l, r) => crate::scan::change::change_same(l, r) && l.path()
                == r.path(),
            ActionV::Conflict(l, r) => l.path() == r.path(),
            _ => true,
        } by {
            assert(s.skip(1)[k] == s[k + 1]);
        }
        lemma_find_action_reverse(s.skip(1), p);
    }
}

/// Applying the reversed actions to the peer's snapshot leaves, at every
/// path, a state equivalent to what applying the actions leaves here —
/// provided the two snapshots agreed at that path before. The two sides of a
/// sync therefore converge.
pub proof fn lemma_apply_reverse_agrees(
    s: Seq<ActionV>,
    old_l: Seq<EntryV>,
    old_r: Seq<EntryV>,
    p: Seq<u8>,
)
    requires
        pairing_wf(s),
        entry_equiv(find_entry(old_l, p), find_entry(old_r, p)),
    ensures
        entry_equiv(expected_at(s, old_l, p), expected_at(reverse_spec(s), old_r, p)),
{
    lemma_find_action_reverse(s, p);
    match find_action(s, p) {
        Some(a) => {
            lemma_find_action_elem(s, p, a);
            assert(match a {
                ActionV::Identical(l, r) => crate::scan::change::change_same(l, r) && l.path()
                    == r.path(),
                ActionV::Conflict(l, r) => l.path() == r.path(),
                _ => true,
            });
            let fl = find_entry(old_l, p);
            let fr = find_entry(old_r, p);
            match a {
                ActionV::Identical(l, r) => {
                    // both sides record the new side of their own change;
                    // `change_same` makes those fingerprints agree
                    assert(entry_equiv(change_result(l), change_result(r))) by {
                        match (l, r) {
                            (ChangeV::Removed(_), ChangeV::Removed(_)) => {},
                            (ChangeV::Added(_), ChangeV::Added(_)) => {},
                            (ChangeV::Modified(_, _), ChangeV::Modified(_, _)) => {},
                            _ => {},
                        }
                    }
                },
                ActionV::Conflict(_, _) => {},
                _ => {},
            }
        },
        None => {},
    }
}

} // verus!
