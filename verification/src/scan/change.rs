//! Per-path differences between two sorted entry lists.
//!
//! [`changes`] is a sorted two-way merge: an entry only in the old list is
//! [`Change::Removed`], only in the new list [`Change::Added`], present in both
//! but not equivalent [`Change::Modified`]. Equivalent entries produce nothing.

use vstd::prelude::*;

use crate::paths::{bytes_lt, lex_lt, lemma_lex_lt_irrefl, lemma_lex_lt_total, lemma_lex_lt_asym,
    lemma_lex_lt_trans};
use crate::scan::{DirEntryWithMeta, EntryV, entries_view, entries_sorted};

verus! {

/// Mathematical value of a [`Change`].
pub ghost enum ChangeV {
    Added(EntryV),
    Removed(EntryV),
    Modified(EntryV, EntryV),
}

impl ChangeV {
    /// The path the change is about (the new side of a modification).
    pub open spec fn path(self) -> Seq<u8> {
        match self {
            ChangeV::Added(e) => e.path,
            ChangeV::Removed(e) => e.path,
            ChangeV::Modified(_o, n) => n.path,
        }
    }

    /// The entry on the new side of the change.
    pub open spec fn entry(self) -> EntryV {
        match self {
            ChangeV::Added(e) => e,
            ChangeV::Removed(e) => e,
            ChangeV::Modified(_o, n) => n,
        }
    }

    /// Any side of the change concerns a directory.
    pub open spec fn is_dir(self) -> bool {
        match self {
            ChangeV::Added(e) => e.is_dir,
            ChangeV::Removed(e) => e.is_dir,
            ChangeV::Modified(o, n) => o.is_dir || n.is_dir,
        }
    }

    /// Both sides of a modification name the same path, and entries are well formed.
    pub open spec fn wf(self) -> bool {
        match self {
            ChangeV::Added(e) => e.wf(),
            ChangeV::Removed(e) => e.wf(),
            ChangeV::Modified(o, n) => o.wf() && n.wf() && o.path == n.path,
        }
    }
}

/// Content fingerprint agreement of two new-side entries, comparable across
/// machines: size, mode, target and kind, and mtime for non-directories.
pub open spec fn fingerprint_same(d1: EntryV, d2: EntryV) -> bool {
    &&& d1.size == d2.size
    &&& d1.mode == d2.mode
    &&& d1.target == d2.target
    &&& d1.is_dir == d2.is_dir
    &&& (d1.is_dir || d1.mtime == d2.mtime)
}

/// Did both sides make the same change at a path?
pub open spec fn change_same(x: ChangeV, y: ChangeV) -> bool {
    match (x, y) {
        (ChangeV::Removed(_), ChangeV::Removed(_)) => true,
        (ChangeV::Added(d1), ChangeV::Added(d2)) => fingerprint_same(d1, d2),
        (ChangeV::Modified(_, d1), ChangeV::Modified(_, d2)) => fingerprint_same(d1, d2),
        _ => false,
    }
}

/// A per-path difference between an old and a new entry list.
#[derive(Debug, PartialEq)]
pub enum Change {
    Added(DirEntryWithMeta),
    Removed(DirEntryWithMeta),
    Modified(DirEntryWithMeta, DirEntryWithMeta),
}

impl View for Change {
    type V = ChangeV;

    open spec fn view(&self) -> ChangeV {
        match self {
            Change::Added(e) => ChangeV::Added(e@),
            Change::Removed(e) => ChangeV::Removed(e@),
            Change::Modified(o, n) => ChangeV::Modified(o@, n@),
        }
    }
}

impl Change {
    /// The path the change is about.
    pub fn path(&self) -> (r: &Vec<u8>)
        ensures
            r@ == self@.path(),
    {
        match self {
            Change::Added(e) => e.path(),
            Change::Removed(e) => e.path(),
            Change::Modified(_o, n) => n.path(),
        }
    }

    /// Does any side of the change concern a directory?
    pub fn is_dir(&self) -> (r: bool)
        ensures
            r == self@.is_dir(),
    {
        match self {
            Change::Added(e) => e.is_dir(),
            Change::Removed(e) => e.is_dir(),
            Change::Modified(o, n) => o.is_dir() || n.is_dir(),
        }
    }

    /// A copy with the same value.
    pub fn duplicate(&self) -> (r: Self)
        ensures
            r@ == self@,
    {
        match self {
            Change::Added(e) => Change::Added(e.duplicate()),
            Change::Removed(e) => Change::Removed(e.duplicate()),
            Change::Modified(o, n) => Change::Modified(o.duplicate(), n.duplicate()),
        }
    }
}

/// Content fingerprint agreement of the new sides of two entries.
fn fingerprint_same_exec(d1: &DirEntryWithMeta, d2: &DirEntryWithMeta) -> (r: bool)
    ensures
        r == fingerprint_same(d1@, d2@),
{
    let t_eq: bool = match (d1.target(), d2.target()) {
        (Some(a), Some(b)) => crate::paths::bytes_eq(a, b),
        (None, None) => true,
        _ => false,
    };
    d1.size() == d2.size() && d1.mode() == d2.mode() && t_eq && d1.is_dir() == d2.is_dir() && (
    d1.is_dir() || d1.mtime() == d2.mtime())
}

/// Did both sides make the same change at this path?
pub fn same(x: &Change, y: &Change) -> (r: bool)
    requires
        x@.path() == y@.path(),
    ensures
        r == change_same(x@, y@),
{
    match (x, y) {
        (Change::Removed(_), Change::Removed(_)) => true,
        (Change::Added(d1), Change::Added(d2)) => fingerprint_same_exec(d1, d2),
        (Change::Modified(_, d1), Change::Modified(_, d2)) => fingerprint_same_exec(d1, d2),
        _ => false,
    }
}

/// View of a sequence of changes.
pub open spec fn changes_view(s: Seq<Change>) -> Seq<ChangeV> {
    s.map_values(|c: Change| c@)
}

/// Changes strictly sorted by path.
pub open spec fn changes_sorted(s: Seq<ChangeV>) -> bool {
    forall|i: int, j: int| 0 <= i < j < s.len() ==> lex_lt(s[i].path(), s[j].path())
}

/// The sorted merge of old entries `a` against new entries `b`, as a sequence
/// of changes.
pub open spec fn changes_spec(a: Seq<EntryV>, b: Seq<EntryV>) -> Seq<ChangeV>
    decreases a.len() + b.len(),
{
    if a.len() == 0 && b.len() == 0 {
        Seq::empty()
    } else if b.len() == 0 || (a.len() > 0 && lex_lt(a[0].path, b[0].path)) {
        seq![ChangeV::Removed(a[0])] + changes_spec(a.skip(1), b)
    } else if a.len() == 0 || lex_lt(b[0].path, a[0].path) {
        seq![ChangeV::Added(b[0])] + changes_spec(a, b.skip(1))
    } else if a[0].same(b[0]) {
        changes_spec(a.skip(1), b.skip(1))
    } else {
        seq![ChangeV::Modified(a[0], b[0])] + changes_spec(a.skip(1), b.skip(1))
    }
}

/// An unchanged tree yields no changes: diffing a snapshot against itself is empty.
pub proof fn lemma_changes_self_empty(s: Seq<EntryV>)
    ensures
        changes_spec(s, s) == Seq::<ChangeV>::empty(),
    decreases s.len(),
{
    if s.len() > 0 {
        lemma_lex_lt_irrefl(s[0].path);
        assert(s[0].same(s[0]));
        lemma_changes_self_empty(s.skip(1));
    } else {
        assert(changes_spec(s, s) =~= Seq::<ChangeV>::empty());
    }
}

proof fn lemma_sorted_skip(s: Seq<EntryV>)
    requires
        entries_sorted(s),
        s.len() > 0,
    ensures
        entries_sorted(s.skip(1)),
{
    assert forall|i: int, j: int| 0 <= i < j < s.skip(1).len() implies lex_lt(
        s.skip(1)[i].path,
        s.skip(1)[j].path,
    ) by {
        assert(s.skip(1)[i] == s[i + 1]);
        assert(s.skip(1)[j] == s[j + 1]);
    }
}

/// The smaller of the two head paths; meaningful only when one list is non-empty.
pub open spec fn head_min(a: Seq<EntryV>, b: Seq<EntryV>) -> Seq<u8> {
    if b.len() == 0 {
        a[0].path
    } else if a.len() == 0 {
        b[0].path
    } else if lex_lt(a[0].path, b[0].path) {
        a[0].path
    } else {
        b[0].path
    }
}

/// A lower bound transfers down: what does not sort below `hi` does not sort
/// below anything that sorts below `hi` either.
pub proof fn lemma_bound_down(x: Seq<u8>, hi: Seq<u8>, lo: Seq<u8>)
    requires
        !lex_lt(x, hi),
        lex_lt(lo, hi),
    ensures
        lex_lt(lo, x),
        !lex_lt(x, lo),
{
    lemma_lex_lt_total(hi, x);
    if hi == x {
    } else {
        if lex_lt(x, hi) {
            assert(false);
        }
        lemma_lex_lt_trans(lo, hi, x);
    }
    lemma_lex_lt_asym(lo, x);
}

/// The merge of two strictly path-sorted entry lists is strictly path-sorted,
/// and no change in it sorts before either head.
pub proof fn lemma_changes_spec_sorted(a: Seq<EntryV>, b: Seq<EntryV>)
    requires
        entries_sorted(a),
        entries_sorted(b),
    ensures
        changes_sorted(changes_spec(a, b)),
        forall|k: int|
            0 <= k < changes_spec(a, b).len() && a.len() + b.len() > 0 ==> !lex_lt(
                (#[trigger] changes_spec(a, b)[k]).path(),
                head_min(a, b),
            ),
    decreases a.len() + b.len(),
{
    let cs = changes_spec(a, b);
    if a.len() == 0 && b.len() == 0 {
        // empty
    } else if b.len() == 0 || (a.len() > 0 && lex_lt(a[0].path, b[0].path)) {
        lemma_sorted_skip(a);
        lemma_changes_spec_sorted(a.skip(1), b);
        let rest = changes_spec(a.skip(1), b);
        assert(cs == seq![ChangeV::Removed(a[0])] + rest);
        assert(cs[0].path() == a[0].path);
        lemma_lex_lt_irrefl(a[0].path);
        if a.skip(1).len() + b.len() > 0 {
            let hm = head_min(a.skip(1), b);
            // the old head sorts before every remaining head
            if a.skip(1).len() > 0 {
                assert(a.skip(1)[0] == a[1]);
                assert(lex_lt(a[0].path, a[1].path));
            }
            assert(lex_lt(a[0].path, hm));
            assert forall|k: int| 0 <= k < rest.len() implies lex_lt(a[0].path, rest[k].path())
                && !lex_lt(rest[k].path(), a[0].path) by {
                lemma_bound_down(rest[k].path(), hm, a[0].path);
            }
        }
        assert forall|i: int, j: int| 0 <= i < j < cs.len() implies lex_lt(
            cs[i].path(),
            cs[j].path(),
        ) by {
            if i > 0 {
                assert(cs[i] == rest[i - 1]);
                assert(cs[j] == rest[j - 1]);
            } else {
                assert(cs[j] == rest[j - 1]);
            }
        }
        assert forall|k: int| 0 <= k < cs.len() implies !lex_lt(cs[k].path(), head_min(a, b)) by {
            assert(head_min(a, b) == a[0].path);
            if k > 0 {
                assert(cs[k] == rest[k - 1]);
            }
        }
    } else if a.len() == 0 || lex_lt(b[0].path, a[0].path) {
        lemma_sorted_skip(b);
        lemma_changes_spec_sorted(a, b.skip(1));
        let rest = changes_spec(a, b.skip(1));
        assert(cs == seq![ChangeV::Added(b[0])] + rest);
        assert(cs[0].path() == b[0].path);
        lemma_lex_lt_irrefl(b[0].path);
        if a.len() + b.skip(1).len() > 0 {
            let hm = head_min(a, b.skip(1));
            if b.skip(1).len() > 0 {
                assert(b.skip(1)[0] == b[1]);
                assert(lex_lt(b[0].path, b[1].path));
            }
            assert(lex_lt(b[0].path, hm));
            assert forall|k: int| 0 <= k < rest.len() implies lex_lt(b[0].path, rest[k].path())
                && !lex_lt(rest[k].path(), b[0].path) by {
                lemma_bound_down(rest[k].path(), hm, b[0].path);
            }
        }
        assert forall|i: int, j: int| 0 <= i < j < cs.len() implies lex_lt(
            cs[i].path(),
            cs[j].path(),
        ) by {
            if i > 0 {
                assert(cs[i] == rest[i - 1]);
                assert(cs[j] == rest[j - 1]);
            } else {
                assert(cs[j] == rest[j - 1]);
            }
        }
        assert forall|k: int| 0 <= k < cs.len() implies !lex_lt(cs[k].path(), head_min(a, b)) by {
            assert(head_min(a, b) == b[0].path);
            if k > 0 {
                assert(cs[k] == rest[k - 1]);
            }
        }
    } else {
        // equal head paths
        lemma_lex_lt_total(a[0].path, b[0].path);
        assert(a[0].path == b[0].path);
        lemma_sorted_skip(a);
        lemma_sorted_skip(b);
        lemma_changes_spec_sorted(a.skip(1), b.skip(1));
        let rest = changes_spec(a.skip(1), b.skip(1));
        let hm0 = head_min(a, b);
        assert(hm0 == b[0].path);
        if a.skip(1).len() + b.skip(1).len() > 0 {
            let hm = head_min(a.skip(1), b.skip(1));
            if a.skip(1).len() > 0 {
                assert(a.skip(1)[0] == a[1]);
                assert(lex_lt(a[0].path, a[1].path));
            }
            if b.skip(1).len() > 0 {
                assert(b.skip(1)[0] == b[1]);
                assert(lex_lt(b[0].path, b[1].path));
            }
            assert(lex_lt(hm0, hm));
            assert forall|k: int| 0 <= k < rest.len() implies lex_lt(hm0, rest[k].path())
                && !lex_lt(rest[k].path(), hm0) by {
                lemma_bound_down(rest[k].path(), hm, hm0);
            }
        }
        if a[0].same(b[0]) {
            assert(cs == rest);
        } else {
            assert(cs == seq![ChangeV::Modified(a[0], b[0])] + rest);
            assert(cs[0].path() == b[0].path);
            lemma_lex_lt_irrefl(b[0].path);
            assert forall|i: int, j: int| 0 <= i < j < cs.len() implies lex_lt(
                cs[i].path(),
                cs[j].path(),
            ) by {
                if i > 0 {
                    assert(cs[i] == rest[i - 1]);
                    assert(cs[j] == rest[j - 1]);
                } else {
                    assert(cs[j] == rest[j - 1]);
                }
            }
            assert forall|k: int| 0 <= k < cs.len() implies !lex_lt(cs[k].path(), head_min(a, b))
                by {
                if k > 0 {
                    assert(cs[k] == rest[k - 1]);
                }
            }
        }
    }
}

/// Diff two sorted entry lists by path. Equivalent entries are skipped; the
/// result lists one change per differing path, in the order of the merge.
/// When both inputs are strictly sorted, so is the result.
pub fn changes(old: &Vec<DirEntryWithMeta>, new: &Vec<DirEntryWithMeta>) -> (r: Vec<Change>)
    ensures
        changes_view(r@) == changes_spec(entries_view(old@), entries_view(new@)),
        entries_sorted(entries_view(old@)) && entries_sorted(entries_view(new@))
            ==> changes_sorted(changes_view(r@)),
{
    let ghost av = entries_view(old@);
    let ghost bv = entries_view(new@);
    let mut r: Vec<Change> = Vec::new();
    let mut i: usize = 0;
    let mut j: usize = 0;
    proof {
        assert(av.skip(0) =~= av);
        assert(bv.skip(0) =~= bv);
        assert(changes_view(r@) + changes_spec(av, bv) =~= changes_spec(av, bv));
    }
    while i < old.len() || j < new.len()
        invariant
            0 <= i <= old@.len(),
            0 <= j <= new@.len(),
            av == entries_view(old@),
            bv == entries_view(new@),
            changes_spec(av, bv) == changes_view(r@) + changes_spec(
                av.skip(i as int),
                bv.skip(j as int),
            ),
        decreases old@.len() - i + new@.len() - j,
    {
        let ghost ra = av.skip(i as int);
        let ghost rb = bv.skip(j as int);
        proof {
            if i < old@.len() {
                assert(ra[0] == av[i as int]);
                assert(ra.skip(1) =~= av.skip(i as int + 1));
            }
            if j < new@.len() {
                assert(rb[0] == bv[j as int]);
                assert(rb.skip(1) =~= bv.skip(j as int + 1));
            }
        }
        if j >= new.len() || (i < old.len() && bytes_lt(old[i].path(), new[j].path())) {
            let c = Change::Removed(old[i].duplicate());
            proof {
                assert(changes_spec(ra, rb) == seq![ChangeV::Removed(ra[0])] + changes_spec(
                    ra.skip(1),
                    rb,
                ));
                assert(changes_view(r@.push(c)) =~= changes_view(r@).push(c@));
                assert(changes_view(r@).push(c@) + changes_spec(av.skip(i as int + 1), rb)
                    =~= changes_view(r@) + changes_spec(ra, rb));
            }
            r.push(c);
            i += 1;
        } else if i >= old.len() || bytes_lt(new[j].path(), old[i].path()) {
            let c = Change::Added(new[j].duplicate());
            proof {
                assert(changes_spec(ra, rb) == seq![ChangeV::Added(rb[0])] + changes_spec(
                    ra,
                    rb.skip(1),
                ));
                assert(changes_view(r@.push(c)) =~= changes_view(r@).push(c@));
                assert(changes_view(r@).push(c@) + changes_spec(ra, bv.skip(j as int + 1))
                    =~= changes_view(r@) + changes_spec(ra, rb));
            }
            r.push(c);
            j += 1;
        } else {
            proof {
                lemma_lex_lt_total(av[i as int].path, bv[j as int].path);
                assert(ra[0].path == rb[0].path);
            }
            if old[i].same(&new[j]) {
                proof {
                    assert(changes_spec(ra, rb) == changes_spec(ra.skip(1), rb.skip(1)));
                }
                i += 1;
                j += 1;
            } else {
                let c = Change::Modified(old[i].duplicate(), new[j].duplicate());
                proof {
                    assert(changes_spec(ra, rb) == seq![ChangeV::Modified(ra[0], rb[0])]
                        + changes_spec(ra.skip(1), rb.skip(1)));
                    assert(changes_view(r@.push(c)) =~= changes_view(r@).push(c@));
                    assert(changes_view(r@).push(c@) + changes_spec(
                        av.skip(i as int + 1),
                        bv.skip(j as int + 1),
                    ) =~= changes_view(r@) + changes_spec(ra, rb));
                }
                r.push(c);
                i += 1;
                j += 1;
            }
        }
    }
    proof {
        assert(av.skip(i as int).len() == 0);
        assert(bv.skip(j as int).len() == 0);
        assert(changes_spec(av.skip(i as int), bv.skip(j as int)) =~= Seq::<ChangeV>::empty());
        assert(changes_view(r@) + Seq::<ChangeV>::empty() =~= changes_view(r@));
        if entries_sorted(av) && entries_sorted(bv) {
            lemma_changes_spec_sorted(av, bv);
        }
    }
    r
}

} // verus!
