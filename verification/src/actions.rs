//! Reconciliation decisions pairing the two sides' changes.
//!
//! A change seen only locally must be pushed outward ([`Action::Remote`]); one
//! seen only remotely must be applied here ([`Action::Local`]); the same change
//! on both sides is recorded without transfer ([`Action::Identical`]); anything
//! else is a [`Action::Conflict`] until a resolution picks a side.

use vstd::prelude::*;

use crate::paths::{bytes_lt, lex_lt, lemma_lex_lt_total};
use crate::scan::change::{Change, ChangeV, change_same, same};

verus! {

/// Mathematical value of an [`Action`].
pub ghost enum ActionV {
    Local(ChangeV),
    Remote(ChangeV),
    Conflict(ChangeV, ChangeV),
    ResolvedLocal((ChangeV, ChangeV), ChangeV),
    ResolvedRemote((ChangeV, ChangeV), ChangeV),
    Identical(ChangeV, ChangeV),
}

impl ActionV {
    /// The path the action is about.
    pub open spec fn path(self) -> Seq<u8> {
        match self {
            ActionV::Local(l) => l.path(),
            ActionV::Remote(r) => r.path(),
            ActionV::Conflict(l, _r) => l.path(),
            ActionV::ResolvedLocal(_, l) => l.path(),
            ActionV::ResolvedRemote(_, r) => r.path(),
            ActionV::Identical(l, _r) => l.path(),
        }
    }

    pub open spec fn is_conflict(self) -> bool {
        self is Conflict || self is ResolvedLocal || self is ResolvedRemote
    }

    pub open spec fn is_unresolved_conflict(self) -> bool {
        self is Conflict
    }

    pub open spec fn is_identical(self) -> bool {
        self is Identical
    }
}

/// A reconciliation decision at one path. `Local(c)` applies `c` to the local
/// tree; `Remote(c)` asks the peer to apply it; the resolved variants carry the
/// original conflicting pair and the change the losing side must apply.
#[derive(Debug, PartialEq)]
pub enum Action {
    Local(Change),
    Remote(Change),
    Conflict(Change, Change),
    ResolvedLocal((Change, Change), Change),
    ResolvedRemote((Change, Change), Change),
    Identical(Change, Change),
}

impl View for Action {
    type V = ActionV;

    open spec fn view(&self) -> ActionV {
        match self {
            Action::Local(l) => ActionV::Local(l@),
            Action::Remote(r) => ActionV::Remote(r@),
            Action::Conflict(l, r) => ActionV::Conflict(l@, r@),
            Action::ResolvedLocal((o, n), l) => ActionV::ResolvedLocal((o@, n@), l@),
            Action::ResolvedRemote((o, n), r) => ActionV::ResolvedRemote((o@, n@), r@),
            Action::Identical(l, r) => ActionV::Identical(l@, r@),
        }
    }
}

/// What pairing a local and a remote change at one path yields.
pub open spec fn create_spec(loc: Option<ChangeV>, roc: Option<ChangeV>) -> Option<ActionV> {
    match (loc, roc) {
        (Some(lc), None) => Some(ActionV::Remote(lc)),
        (None, Some(rc)) => Some(ActionV::Local(rc)),
        (Some(lc), Some(rc)) => if change_same(lc, rc) {
            Some(ActionV::Identical(lc, rc))
        } else {
            Some(ActionV::Conflict(lc, rc))
        },
        (None, None) => None,
    }
}

impl Action {
    /// Pair an optional local and remote change for one path into an action.
    pub fn create(loc: Option<&Change>, roc: Option<&Change>) -> (r: Option<Action>)
        requires
            (loc is Some && roc is Some) ==> loc->0@.path() == roc->0@.path(),
        ensures
            match r {
                Some(a) => create_spec(
                    match loc {
                        Some(c) => Some(c@),
                        None => None,
                    },
                    match roc {
                        Some(c) => Some(c@),
                        None => None,
                    },
                ) == Some(a@),
                None => loc is None && roc is None,
            },
    {
        match (loc, roc) {
            (Some(lc), None) => Some(Action::Remote(lc.duplicate())),
            (None, Some(rc)) => Some(Action::Local(rc.duplicate())),
            (Some(lc), Some(rc)) => {
                if same(lc, rc) {
                    Some(Action::Identical(lc.duplicate(), rc.duplicate()))
                } else {
                    Some(Action::Conflict(lc.duplicate(), rc.duplicate()))
                }
            },
            (None, None) => None,
        }
    }

    pub fn is_conflict(&self) -> (r: bool)
        ensures
            r == self@.is_conflict(),
    {
        match self {
            Action::Conflict(_, _) | Action::ResolvedLocal(_, _) | Action::ResolvedRemote(
                _,
                _,
            ) => true,
            _ => false,
        }
    }

    pub fn is_unresolved_conflict(&self) -> (r: bool)
        ensures
            r == self@.is_unresolved_conflict(),
    {
        match self {
            Action::Conflict(_, _) => true,
            _ => false,
        }
    }

    pub fn is_identical(&self) -> (r: bool)
        ensures
            r == self@.is_identical(),
    {
        match self {
            Action::Identical(_, _) => true,
            _ => false,
        }
    }

    /// The path the action is about.
    pub fn path(&self) -> (r: &Vec<u8>)
        ensures
            r@ == self@.path(),
    {
        match self {
            Action::Local(l) => l.path(),
            Action::Remote(r) => r.path(),
            Action::Conflict(l, _r) => l.path(),
            Action::ResolvedLocal((_, _), l) => l.path(),
            Action::ResolvedRemote((_, _), r) => r.path(),
            Action::Identical(l, _r) => l.path(),
        }
    }

    /// A copy with the same value.
    pub fn duplicate(&self) -> (r: Self)
        ensures
            r@ == self@,
    {
        match self {
            Action::Local(l) => Action::Local(l.duplicate()),
            Action::Remote(r) => Action::Remote(r.duplicate()),
            Action::Conflict(l, r) => Action::Conflict(l.duplicate(), r.duplicate()),
            Action::ResolvedLocal((o, n), l) => Action::ResolvedLocal(
                (o.duplicate(), n.duplicate()),
                l.duplicate(),
            ),
            Action::ResolvedRemote((o, n), r) => Action::ResolvedRemote(
                (o.duplicate(), n.duplicate()),
                r.duplicate(),
            ),
            Action::Identical(l, r) => Action::Identical(l.duplicate(), r.duplicate()),
        }
    }
}

/// View of a sequence of actions.
pub open spec fn actions_view(s: Seq<Action>) -> Seq<ActionV> {
    s.map_values(|a: Action| a@)
}

/// Number of still-unresolved conflicts.
pub open spec fn count_unresolved(s: Seq<ActionV>) -> int
    decreases s.len(),
{
    if s.len() == 0 {
        0
    } else {
        (if s[0].is_unresolved_conflict() {
            1int
        } else {
            0int
        }) + count_unresolved(s.skip(1))
    }
}

/// Number of identical actions.
pub open spec fn count_identical(s: Seq<ActionV>) -> int
    decreases s.len(),
{
    if s.len() == 0 {
        0
    } else {
        (if s[0].is_identical() {
            1int
        } else {
            0int
        }) + count_identical(s.skip(1))
    }
}

proof fn lemma_count_bounds(s: Seq<ActionV>)
    ensures
        0 <= count_unresolved(s) <= s.len(),
        0 <= count_identical(s) <= s.len(),
    decreases s.len(),
{
    if s.len() > 0 {
        lemma_count_bounds(s.skip(1));
    }
}

/// Count the conflicts no resolution has picked a side for.
pub fn num_unresolved_conflicts(actions: &Vec<Action>) -> (r: usize)
    ensures
        r == count_unresolved(actions_view(actions@)),
{
    let ghost s = actions_view(actions@);
    proof {
        lemma_count_bounds(s);
        assert(s.skip(0) =~= s);
    }
    let mut n: usize = 0;
    let mut i: usize = 0;
    while i < actions.len()
        invariant
            0 <= i <= actions@.len(),
            s == actions_view(actions@),
            n <= i,
            count_unresolved(s) == n + count_unresolved(s.skip(i as int)),
        decreases actions@.len() - i,
    {
        proof {
            assert(s.skip(i as int)[0] == s[i as int]);
            assert(s.skip(i as int).skip(1) =~= s.skip(i as int + 1));
            lemma_count_bounds(s.skip(i as int + 1));
            lemma_count_bounds(s);
        }
        if actions[i].is_unresolved_conflict() {
            n += 1;
        }
        i += 1;
    }
    proof {
        assert(s.skip(i as int).len() == 0);
    }
    n
}

/// Count the actions both sides already made identically.
pub fn num_identical(actions: &Vec<Action>) -> (r: usize)
    ensures
        r == count_identical(actions_view(actions@)),
{
    let ghost s = actions_view(actions@);
    proof {
        lemma_count_bounds(s);
        assert(s.skip(0) =~= s);
    }
    let mut n: usize = 0;
    let mut i: usize = 0;
    while i < actions.len()
        invariant
            0 <= i <= actions@.len(),
            s == actions_view(actions@),
            n <= i,
            count_identical(s) == n + count_identical(s.skip(i as int)),
        decreases actions@.len() - i,
    {
        proof {
            assert(s.skip(i as int)[0] == s[i as int]);
            assert(s.skip(i as int).skip(1) =~= s.skip(i as int + 1));
            lemma_count_bounds(s.skip(i as int + 1));
            lemma_count_bounds(s);
        }
        if actions[i].is_identical() {
            n += 1;
        }
        i += 1;
    }
    proof {
        assert(s.skip(i as int).len() == 0);
    }
    n
}

/// The same action as seen from the other side of the sync.
pub open spec fn reverse_one(a: ActionV) -> ActionV {
    match a {
        ActionV::Local(l) => ActionV::Remote(l),
        ActionV::Remote(r) => ActionV::Local(r),
        ActionV::Conflict(l, r) => ActionV::Conflict(r, l),
        ActionV::ResolvedLocal((o, n), l) => ActionV::ResolvedRemote((o, n), l),
        ActionV::ResolvedRemote((o, n), r) => ActionV::ResolvedLocal((o, n), r),
        ActionV::Identical(l, r) => ActionV::Identical(r, l),
    }
}

/// An action list as the peer must see it.
pub open spec fn reverse_spec(s: Seq<ActionV>) -> Seq<ActionV> {
    s.map_values(|a: ActionV| reverse_one(a))
}

/// Reversing a single action twice gives it back.
pub proof fn lemma_reverse_one_involution(a: ActionV)
    ensures
        reverse_one(reverse_one(a)) == a,
{
}

/// Reversing an action list twice gives the original list back.
pub proof fn lemma_reverse_involution(s: Seq<ActionV>)
    ensures
        reverse_spec(reverse_spec(s)) == s,
{
    assert forall|i: int| 0 <= i < s.len() implies reverse_spec(reverse_spec(s))[i] == s[i] by {
        assert(reverse_spec(s)[i] == reverse_one(s[i]));
        lemma_reverse_one_involution(s[i]);
    }
    assert(reverse_spec(reverse_spec(s)) =~= s);
}

/// Swap each action's sides: what this side will apply is what the peer must
/// send, and the other way round.
pub fn reverse(actions: &Vec<Action>) -> (r: Vec<Action>)
    ensures
        actions_view(r@) == reverse_spec(actions_view(actions@)),
{
    let ghost s = actions_view(actions@);
    let mut r: Vec<Action> = Vec::new();
    let mut i: usize = 0;
    while i < actions.len()
        invariant
            0 <= i <= actions@.len(),
            s == actions_view(actions@),
            actions_view(r@) =~= reverse_spec(s).take(i as int),
        decreases actions@.len() - i,
    {
        let a = match &actions[i] {
            Action::Local(l) => Action::Remote(l.duplicate()),
            Action::Remote(rc) => Action::Local(rc.duplicate()),
            Action::Conflict(l, rc) => Action::Conflict(rc.duplicate(), l.duplicate()),
            Action::ResolvedLocal((o, n), l) => Action::ResolvedRemote(
                (o.duplicate(), n.duplicate()),
                l.duplicate(),
            ),
            Action::ResolvedRemote((o, n), rc) => Action::ResolvedLocal(
                (o.duplicate(), n.duplicate()),
                rc.duplicate(),
            ),
            Action::Identical(l, rc) => Action::Identical(rc.duplicate(), l.duplicate()),
        };
        proof {
            assert(a@ == reverse_one(s[i as int]));
            assert(actions_view(r@.push(a)) =~= actions_view(r@).push(a@));
            assert(actions_view(r@).push(a@) =~= reverse_spec(s).take(i as int + 1));
        }
        r.push(a);
        i += 1;
    }
    proof {
        assert(reverse_spec(s).take(i as int) =~= reverse_spec(s));
    }
    r
}

/// The merge of the two sides' sorted change lists into actions.
pub open spec fn pair_spec(l: Seq<ChangeV>, r: Seq<ChangeV>) -> Seq<ActionV>
    decreases l.len() + r.len(),
{
    if l.len() == 0 && r.len() == 0 {
        Seq::empty()
    } else if r.len() == 0 || (l.len() > 0 && lex_lt(l[0].path(), r[0].path())) {
        seq![ActionV::Remote(l[0])] + pair_spec(l.skip(1), r)
    } else if l.len() == 0 || lex_lt(r[0].path(), l[0].path()) {
        seq![ActionV::Local(r[0])] + pair_spec(l, r.skip(1))
    } else if change_same(l[0], r[0]) {
        seq![ActionV::Identical(l[0], r[0])] + pair_spec(l.skip(1), r.skip(1))
    } else {
        seq![ActionV::Conflict(l[0], r[0])] + pair_spec(l.skip(1), r.skip(1))
    }
}

/// With no remote changes, every local change must be pushed outward.
pub proof fn lemma_pair_all_local(l: Seq<ChangeV>)
    ensures
        pair_spec(l, Seq::empty()) == l.map_values(|c: ChangeV| ActionV::Remote(c)),
    decreases l.len(),
{
    let m = l.map_values(|c: ChangeV| ActionV::Remote(c));
    if l.len() == 0 {
        assert(pair_spec(l, Seq::empty()) =~= m);
    } else {
        lemma_pair_all_local(l.skip(1));
        assert(l.skip(1).map_values(|c: ChangeV| ActionV::Remote(c)) =~= m.skip(1));
        assert(pair_spec(l, Seq::empty()) =~= m);
    }
}

/// With no local changes, every remote change must be applied here.
pub proof fn lemma_pair_all_remote(r: Seq<ChangeV>)
    ensures
        pair_spec(Seq::empty(), r) == r.map_values(|c: ChangeV| ActionV::Local(c)),
    decreases r.len(),
{
    let m = r.map_values(|c: ChangeV| ActionV::Local(c));
    if r.len() == 0 {
        assert(pair_spec(Seq::empty(), r) =~= m);
    } else {
        lemma_pair_all_remote(r.skip(1));
        assert(r.skip(1).map_values(|c: ChangeV| ActionV::Local(c)) =~= m.skip(1));
        assert(pair_spec(Seq::empty(), r) =~= m);
    }
}

/// View of a sequence of changes (re-exported shape used by the merge).
pub open spec fn changes_view_of(s: Seq<Change>) -> Seq<ChangeV> {
    s.map_values(|c: Change| c@)
}

/// Merge the two sides' sorted change lists into the action list of this sync.
pub fn pair_changes(local: &Vec<Change>, remote: &Vec<Change>) -> (r: Vec<Action>)
    ensures
        actions_view(r@) == pair_spec(changes_view_of(local@), changes_view_of(remote@)),
{
    let ghost lv = changes_view_of(local@);
    let ghost rv = changes_view_of(remote@);
    let mut out: Vec<Action> = Vec::new();
    let mut i: usize = 0;
    let mut j: usize = 0;
    proof {
        assert(lv.skip(0) =~= lv);
        assert(rv.skip(0) =~= rv);
        assert(actions_view(out@) + pair_spec(lv, rv) =~= pair_spec(lv, rv));
    }
    while i < local.len() || j < remote.len()
        invariant
            0 <= i <= local@.len(),
            0 <= j <= remote@.len(),
            lv == changes_view_of(local@),
            rv == changes_view_of(remote@),
            pair_spec(lv, rv) == actions_view(out@) + pair_spec(
                lv.skip(i as int),
                rv.skip(j as int),
            ),
        decreases local@.len() - i + remote@.len() - j,
    {
        let ghost rl = lv.skip(i as int);
        let ghost rr = rv.skip(j as int);
        proof {
            if i < local@.len() {
                assert(rl[0] == lv[i as int]);
                assert(rl.skip(1) =~= lv.skip(i as int + 1));
            }
            if j < remote@.len() {
                assert(rr[0] == rv[j as int]);
                assert(rr.skip(1) =~= rv.skip(j as int + 1));
            }
        }
        if j >= remote.len() || (i < local.len() && bytes_lt(local[i].path(), remote[j].path())) {
            let a = Action::Remote(local[i].duplicate());
            proof {
                assert(pair_spec(rl, rr) == seq![ActionV::Remote(rl[0])] + pair_spec(
                    rl.skip(1),
                    rr,
                ));
                assert(actions_view(out@.push(a)) =~= actions_view(out@).push(a@));
                assert(actions_view(out@).push(a@) + pair_spec(lv.skip(i as int + 1), rr)
                    =~= actions_view(out@) + pair_spec(rl, rr));
            }
            out.push(a);
            i += 1;
        } else if i >= local.len() || bytes_lt(remote[j].path(), local[i].path()) {
            let a = Action::Local(remote[j].duplicate());
            proof {
                assert(pair_spec(rl, rr) == seq![ActionV::Local(rr[0])] + pair_spec(
                    rl,
                    rr.skip(1),
                ));
                assert(actions_view(out@.push(a)) =~= actions_view(out@).push(a@));
                assert(actions_view(out@).push(a@) + pair_spec(rl, rv.skip(j as int + 1))
                    =~= actions_view(out@) + pair_spec(rl, rr));
            }
            out.push(a);
            j += 1;
        } else {
            proof {
                lemma_lex_lt_total(lv[i as int].path(), rv[j as int].path());
                assert(rl[0].path() == rr[0].path());
            }
            let a = if same(&local[i], &remote[j]) {
                Action::Identical(local[i].duplicate(), remote[j].duplicate())
            } else {
                Action::Conflict(local[i].duplicate(), remote[j].duplicate())
            };
            proof {
                if change_same(rl[0], rr[0]) {
                    assert(pair_spec(rl, rr) == seq![ActionV::Identical(rl[0], rr[0])] + pair_spec(
                        rl.skip(1),
                        rr.skip(1),
                    ));
                } else {
                    assert(pair_spec(rl, rr) == seq![ActionV::Conflict(rl[0], rr[0])] + pair_spec(
                        rl.skip(1),
                        rr.skip(1),
                    ));
                }
                assert(actions_view(out@.push(a)) =~= actions_view(out@).push(a@));
                assert(actions_view(out@).push(a@) + pair_spec(
                    lv.skip(i as int + 1),
                    rv.skip(j as int + 1),
                ) =~= actions_view(out@) + pair_spec(rl, rr));
            }
            out.push(a);
            i += 1;
            j += 1;
        }
    }
    proof {
        assert(lv.skip(i as int).len() == 0);
        assert(rv.skip(j as int).len() == 0);
        assert(pair_spec(lv.skip(i as int), rv.skip(j as int)) =~= Seq::<ActionV>::empty());
        assert(actions_view(out@) + Seq::<ActionV>::empty() =~= actions_view(out@));
    }
    out
}

/// The action list with unresolved conflicts left out, ready to apply.
pub open spec fn filter_resolved_spec(s: Seq<ActionV>) -> Seq<ActionV> {
    s.filter(|a: ActionV| !a.is_unresolved_conflict())
}

/// Drop the conflicts nobody resolved; what remains is applied.
pub fn filter_resolved(actions: &Vec<Action>) -> (r: Vec<Action>)
    ensures
        actions_view(r@) == filter_resolved_spec(actions_view(actions@)),
{
    let ghost s = actions_view(actions@);
    let mut out: Vec<Action> = Vec::new();
    let mut i: usize = 0;
    proof {
        assert(s.take(0) =~= Seq::<ActionV>::empty());
        assert(actions_view(out@) =~= s.take(0).filter(|a: ActionV| !a.is_unresolved_conflict()));
    }
    while i < actions.len()
        invariant
            0 <= i <= actions@.len(),
            s == actions_view(actions@),
            actions_view(out@) == s.take(i as int).filter(
                |a: ActionV| !a.is_unresolved_conflict(),
            ),
        decreases actions@.len() - i,
    {
        proof {
            assert(s.take(i as int + 1).drop_last() =~= s.take(i as int));
            assert(s.take(i as int + 1).last() == s[i as int]);
            reveal_with_fuel(Seq::filter, 2);
            assert(s.take(i as int + 1).filter(|a: ActionV| !a.is_unresolved_conflict())
                == s.take(i as int).filter(|a: ActionV| !a.is_unresolved_conflict()) + (
            if !s[i as int].is_unresolved_conflict() {
                seq![s[i as int]]
            } else {
                Seq::<ActionV>::empty()
            }));
        }
        if !actions[i].is_unresolved_conflict() {
            let a = actions[i].duplicate();
            proof {
                assert(actions_view(out@.push(a)) =~= actions_view(out@).push(a@));
                assert(actions_view(out@).push(a@) =~= actions_view(out@) + seq![s[i as int]]);
            }
            out.push(a);
        } else {
            proof {
                assert(actions_view(out@) + Seq::<ActionV>::empty() =~= actions_view(out@));
            }
        }
        i += 1;
    }
    proof {
        assert(s.take(i as int) =~= s);
    }
    out
}

/// Which side a conflict is resolved toward.
#[derive(Debug, PartialEq)]
pub enum Resolution {
    Local,
    Remote,
}

/// A conflict pair that a resolution knows how to turn into an effective
/// change: both sides added, both modified, or one modified what the other
/// removed. (Both sides removing is never a conflict: it is identical.)
pub open spec fn resolvable_pair(lc: ChangeV, rc: ChangeV) -> bool {
    match (lc, rc) {
        (ChangeV::Added(_), ChangeV::Added(_)) => true,
        (ChangeV::Removed(_), ChangeV::Modified(_, _)) => true,
        (ChangeV::Modified(_, _), ChangeV::Modified(_, _)) => true,
        (ChangeV::Modified(_, _), ChangeV::Removed(_)) => true,
        _ => false,
    }
}

/// Actions that [`resolve_action`] accepts: non-conflicts pass through, and a
/// conflicting pair must be one of the resolvable shapes.
pub open spec fn resolvable(a: ActionV) -> bool {
    match a {
        ActionV::Conflict(lc, rc) => resolvable_pair(lc, rc),
        ActionV::ResolvedLocal((lc, rc), _) => resolvable_pair(lc, rc),
        ActionV::ResolvedRemote((lc, rc), _) => resolvable_pair(lc, rc),
        _ => true,
    }
}

/// The effective change the losing side applies when the conflict `(lc, rc)`
/// is resolved toward the local state.
pub open spec fn resolve_local_spec(lc: ChangeV, rc: ChangeV) -> ChangeV {
    match (lc, rc) {
        (ChangeV::Added(ln), ChangeV::Added(rn)) => ChangeV::Modified(ln, rn),
        (ChangeV::Removed(_), ChangeV::Modified(_, rn)) => ChangeV::Added(rn),
        (ChangeV::Modified(_lo, ln), ChangeV::Modified(_ro, rn)) => ChangeV::Modified(ln, rn),
        (ChangeV::Modified(_, ln), _) => ChangeV::Removed(ln),
        (_, _) => lc,
    }
}

/// The effective change when the conflict is resolved toward the remote state.
pub open spec fn resolve_remote_spec(lc: ChangeV, rc: ChangeV) -> ChangeV {
    match (lc, rc) {
        (ChangeV::Added(ln), ChangeV::Added(rn)) => ChangeV::Modified(rn, ln),
        (ChangeV::Modified(_, ln), ChangeV::Removed(_)) => ChangeV::Added(ln),
        (ChangeV::Modified(_lo, ln), ChangeV::Modified(_ro, rn)) => ChangeV::Modified(rn, ln),
        (ChangeV::Removed(_), ChangeV::Modified(_, rn)) => ChangeV::Removed(rn),
        (_, _) => rc,
    }
}

/// What resolving `a` toward `res` yields: conflicts become resolved actions
/// carrying the effective change; everything else passes through unchanged.
pub open spec fn resolve_spec(a: ActionV, res: Resolution) -> ActionV {
    match a {
        ActionV::Conflict(lc, rc) | ActionV::ResolvedLocal((lc, rc), _)
            | ActionV::ResolvedRemote((lc, rc), _) => match res {
            Resolution::Local => ActionV::ResolvedLocal((lc, rc), resolve_local_spec(lc, rc)),
            Resolution::Remote => ActionV::ResolvedRemote((lc, rc), resolve_remote_spec(lc, rc)),
        },
        _ => a,
    }
}

/// Resolve a conflict toward one side, turning it into the effective change
/// the losing side must apply; non-conflicts are returned unchanged.
pub fn resolve_action(action: &Action, resolution: Resolution) -> (r: Action)
    requires
        resolvable(action@),
    ensures
        r@ == resolve_spec(action@, resolution),
{
    match action {
        Action::Conflict(lc, rc) | Action::ResolvedLocal((lc, rc), _) | Action::ResolvedRemote(
            (lc, rc),
            _,
        ) => {
            match resolution {
                Resolution::Local => {
                    let eff = match (lc, rc) {
                        (Change::Added(ln), Change::Added(rn)) => Change::Modified(
                            ln.duplicate(),
                            rn.duplicate(),
                        ),
                        (Change::Removed(_), Change::Modified(_, rn)) => Change::Added(
                            rn.duplicate(),
                        ),
                        (Change::Modified(_lo, ln), Change::Modified(_ro, rn)) => Change::Modified(
                            ln.duplicate(),
                            rn.duplicate(),
                        ),
                        (Change::Modified(_, ln), _) => Change::Removed(ln.duplicate()),
                        (c, _) => c.duplicate(),
                    };
                    Action::ResolvedLocal((lc.duplicate(), rc.duplicate()), eff)
                },
                Resolution::Remote => {
                    let eff = match (lc, rc) {
                        (Change::Added(ln), Change::Added(rn)) => Change::Modified(
                            rn.duplicate(),
                            ln.duplicate(),
                        ),
                        (Change::Modified(_, ln), Change::Removed(_)) => Change::Added(
                            ln.duplicate(),
                        ),
                        (Change::Modified(_lo, ln), Change::Modified(_ro, rn)) => Change::Modified(
                            rn.duplicate(),
                            ln.duplicate(),
                        ),
                        (Change::Removed(_), Change::Modified(_, rn)) => Change::Removed(
                            rn.duplicate(),
                        ),
                        (_, c) => c.duplicate(),
                    };
                    Action::ResolvedRemote((lc.duplicate(), rc.duplicate()), eff)
                },
            }
        },
        _ => action.duplicate(),
    }
}


/// The outcome of deciding whether a run proceeds.
#[derive(Debug, PartialEq)]
pub enum AllResolution {
    Proceed,
    Abort,
    Force,
}

/// What a batch run does with its action list: a forced run applies what it
/// can, a run with unresolved conflicts aborts, a clean run proceeds.
pub fn batch_resolution(force: bool, num_conflicts: usize) -> (r: AllResolution)
    ensures
        force ==> r == AllResolution::Force,
        !force && num_conflicts > 0 ==> r == AllResolution::Abort,
        !force && num_conflicts == 0 ==> r == AllResolution::Proceed,
{
    if force {
        AllResolution::Force
    } else if num_conflicts > 0 {
        AllResolution::Abort
    } else {
        AllResolution::Proceed
    }
}

} // verus!
