//! Metadata records produced by walking a tree, and the include/exclude
//! window kept while descending.
//!
//! The walker itself does I/O and lives outside the library; it reports each
//! object as a [`DirEntryWithMeta`] and drives its include/exclude decisions
//! through [`narrow_parent_from_to`] and [`find_parent`].

use vstd::prelude::*;

use crate::paths::{
    bytes_dup, lex_lt, path_starts_with, starts_with_path, bytes_eq,
};

pub mod location;
pub mod change;

verus! {

use crate::scan::location::{Location, LocationV};

/// Mathematical value of a [`DirEntryWithMeta`].
pub ghost struct EntryV {
    pub path: Seq<u8>,
    pub size: u64,
    pub mtime: i64,
    pub ino: u64,
    pub mode: u32,
    pub target: Option<Seq<u8>>,
    pub is_dir: bool,
    pub checksum: u32,
}

impl EntryV {
    /// An entry is a symlink exactly when it carries a target.
    pub open spec fn is_symlink(self) -> bool {
        self.target is Some
    }

    /// A regular file: neither directory nor symlink.
    pub open spec fn is_file(self) -> bool {
        !self.is_dir && !self.is_symlink()
    }

    /// Directories never carry a symlink target.
    pub open spec fn wf(self) -> bool {
        self.is_dir ==> self.target is None
    }

    /// Fast metadata equality of file contents: size, mtime and inode agree.
    pub open spec fn same_contents(self, other: EntryV) -> bool {
        self.size == other.size && self.mtime == other.mtime && self.ino == other.ino
    }

    /// Equivalence used by the differ: same kind and, for non-directories,
    /// same metadata; symlink permissions are ignored.
    pub open spec fn same(self, other: EntryV) -> bool {
        &&& (self.is_symlink() || self.mode == other.mode)
        &&& self.target == other.target
        &&& self.is_dir == other.is_dir
        &&& (self.is_dir || self.same_contents(other))
    }
}

/// View of an optional byte string.
pub open spec fn option_bytes_view(o: Option<Vec<u8>>) -> Option<Seq<u8>> {
    match o {
        Some(v) => Some(v@),
        None => None,
    }
}

/// View of a sequence of entries.
pub open spec fn entries_view(s: Seq<DirEntryWithMeta>) -> Seq<EntryV> {
    s.map_values(|e: DirEntryWithMeta| e@)
}

/// Entries strictly sorted by path.
pub open spec fn entries_sorted(s: Seq<EntryV>) -> bool {
    forall|i: int, j: int| 0 <= i < j < s.len() ==> lex_lt(s[i].path, s[j].path)
}

/// A metadata record for one filesystem object, relative to a scan root.
#[derive(Debug, PartialEq)]
pub struct DirEntryWithMeta {
    path: Vec<u8>,
    size: u64,
    mtime: i64,
    ino: u64,
    mode: u32,
    target: Option<Vec<u8>>,
    is_dir: bool,
    checksum: u32,
}

impl View for DirEntryWithMeta {
    type V = EntryV;

    closed spec fn view(&self) -> EntryV {
        EntryV {
            path: self.path@,
            size: self.size,
            mtime: self.mtime,
            ino: self.ino,
            mode: self.mode,
            target: option_bytes_view(self.target),
            is_dir: self.is_dir,
            checksum: self.checksum,
        }
    }
}

impl DirEntryWithMeta {
    /// Assemble an entry from the metadata the walker read.
    pub fn new(
        path: Vec<u8>,
        size: u64,
        mtime: i64,
        ino: u64,
        mode: u32,
        target: Option<Vec<u8>>,
        is_dir: bool,
        checksum: u32,
    ) -> (r: Self)
        requires
            is_dir ==> target is None,
        ensures
            r@ == (EntryV {
                path: path@,
                size,
                mtime,
                ino,
                mode,
                target: option_bytes_view(target),
                is_dir,
                checksum,
            }),
            r@.wf(),
    {
        DirEntryWithMeta { path, size, mtime, ino, mode, target, is_dir, checksum }
    }

    /// A copy with the same value.
    pub fn duplicate(&self) -> (r: Self)
        ensures
            r@ == self@,
    {
        let target: Option<Vec<u8>> = match &self.target {
            Some(t) => Some(bytes_dup(t)),
            None => None,
        };
        DirEntryWithMeta {
            path: bytes_dup(&self.path),
            size: self.size,
            mtime: self.mtime,
            ino: self.ino,
            mode: self.mode,
            target,
            is_dir: self.is_dir,
            checksum: self.checksum,
        }
    }

    /// Does this entry lie at or under `path`?
    pub fn starts_with(&self, path: &Vec<u8>) -> (r: bool)
        ensures
            r == path_starts_with(self@.path, path@),
    {
        starts_with_path(&self.path, path)
    }

    pub fn path(&self) -> (r: &Vec<u8>)
        ensures
            r@ == self@.path,
    {
        &self.path
    }

    pub fn target(&self) -> (r: &Option<Vec<u8>>)
        ensures
            option_bytes_view(*r) == self@.target,
    {
        &self.target
    }

    /// Fast metadata comparison of contents: size, mtime and inode.
    pub fn same_contents(&self, other: &Self) -> (r: bool)
        ensures
            r == self@.same_contents(other@),
    {
        self.size == other.size && self.mtime == other.mtime && self.ino == other.ino
    }

    pub fn is_symlink(&self) -> (r: bool)
        ensures
            r == self@.is_symlink(),
    {
        self.target.is_some()
    }

    pub fn mode(&self) -> (r: u32)
        ensures
            r == self@.mode,
    {
        self.mode
    }

    pub fn mtime(&self) -> (r: i64)
        ensures
            r == self@.mtime,
    {
        self.mtime
    }

    pub fn size(&self) -> (r: u64)
        ensures
            r == self@.size,
    {
        self.size
    }

    pub fn ino(&self) -> (r: u64)
        ensures
            r == self@.ino,
    {
        self.ino
    }

    pub fn checksum(&self) -> (r: u32)
        ensures
            r == self@.checksum,
    {
        self.checksum
    }

    /// Record the inode the filesystem actually assigned.
    pub fn set_ino(&mut self, ino: u64)
        ensures
            final(self)@ == (EntryV { ino, ..old(self)@ }),
    {
        self.ino = ino;
    }

    pub fn is_dir(&self) -> (r: bool)
        ensures
            r == self@.is_dir,
    {
        self.is_dir
    }

    pub fn is_file(&self) -> (r: bool)
        ensures
            r == self@.is_file(),
    {
        !(self.is_dir || self.target.is_some())
    }

    /// Fill in the Adler-32 checksum of the file's contents, handed in as
    /// plain bytes; directories and symlinks are left untouched.
    pub fn compute_checksum(&mut self, contents: &Vec<u8>)
        ensures
            final(self)@ == if old(self)@.is_file() {
                EntryV { checksum: crate::rustsync::adler_of(contents@), ..old(self)@ }
            } else {
                old(self)@
            },
    {
        if self.is_file() {
            self.checksum = crate::rustsync::weak_hash(contents.as_slice());
        }
    }

    /// Equivalence used by the differ; both entries must name the same path.
    pub fn same(&self, other: &Self) -> (r: bool)
        requires
            self@.path == other@.path,
        ensures
            r == self@.same(other@),
    {
        let target_eq: bool = match (&self.target, &other.target) {
            (Some(a), Some(b)) => bytes_eq(a, b),
            (None, None) => true,
            _ => false,
        };
        (self.target.is_some() || self.mode == other.mode) && target_eq && self.is_dir
            == other.is_dir && (self.is_dir || self.same_contents(other))
    }
}

/// Window into the sorted rule list while the walker descends: `parent` is the
/// governing rule seen so far, `[from..=to]` the rules that may still apply below.
#[derive(Clone, Copy, Debug)]
pub struct ParentFromTo {
    pub parent: usize,
    pub from: usize,
    pub to: usize,
}

/// Narrow the rule window for a directory `path` the walker is entering:
/// skip rules that no longer apply, keep the contiguous run that still does,
/// and adopt a rule naming `path` itself as the new governing parent.
pub fn narrow_parent_from_to(pft: ParentFromTo, path: &Vec<u8>, locations: &Vec<Location>) -> (r:
    ParentFromTo)
    requires
        pft.parent < locations@.len(),
        pft.to < locations@.len(),
        pft.from <= locations@.len(),
    ensures
        r.from >= pft.from,
        r.from <= locations@.len(),
        r.to < locations@.len(),
        r.parent < locations@.len(),
        forall|k: int|
            pft.from <= k < r.from && k <= pft.to ==> !path_starts_with(
                locations@[k]@.path(),
                path@,
            ),
        r.from <= pft.to ==> path_starts_with(locations@[r.from as int]@.path(), path@),
        r.from > pft.to ==> r.to == pft.to && (r.from == pft.from || r.from == pft.to + 1),
        r.from <= pft.to ==> r.from <= r.to <= pft.to && forall|k: int|
            r.from <= k <= r.to ==> path_starts_with(locations@[k]@.path(), path@),
        r.parent == if r.from <= r.to && locations@[r.from as int]@.path() == path@ {
            r.from as int
        } else {
            pft.parent as int
        },
{
    let n: usize = locations.len();
    let mut from: usize = pft.from;
    let mut to: usize = pft.to;
    let mut parent: usize = pft.parent;

    // advance past rules that do not reach down to `path`
    while from <= to && !locations[from].path_ref_starts_with(path)
        invariant
            pft.from <= from,
            from <= n,
            from == pft.from || from <= pft.to + 1,
            to == pft.to,
            to < n,
            n == locations@.len(),
            forall|k: int|
                pft.from <= k < from && k <= pft.to ==> !path_starts_with(
                    locations@[k]@.path(),
                    path@,
                ),
        decreases to + 1 - from,
    {
        from += 1;
    }

    if from <= to {
        // keep the contiguous run of rules that still apply under `path`
        let parent_to = to;
        to = from;
        while to < parent_to && locations[to + 1].path_ref_starts_with(path)
            invariant
                from <= to <= parent_to,
                parent_to == pft.to,
                parent_to < n,
                n == locations@.len(),
                path_starts_with(locations@[from as int]@.path(), path@),
                forall|k: int|
                    from <= k <= to ==> path_starts_with(locations@[k]@.path(), path@),
            decreases parent_to - to,
        {
            to += 1;
        }
    }

    // a rule naming `path` itself becomes the governing parent
    if from <= to && bytes_eq(locations[from].path(), path) {
        parent = from;
    }

    ParentFromTo { parent, from, to }
}

/// The rule governing `path`: the first rule in the window that names `path`
/// exactly, or the enclosing parent rule.
pub fn find_parent<'a>(path: &Vec<u8>, locations: &'a Vec<Location>, pft: &ParentFromTo) -> (r:
    &'a Location)
    requires
        pft.parent < locations@.len(),
    ensures
        exists|k: int| 0 <= k < locations@.len() && r@ == locations@[k]@,
        (exists|k: int|
            pft.from <= k <= pft.to && k < locations@.len() && locations@[k]@.path() == path@)
            ==> exists|k: int|
            {
                &&& pft.from <= k <= pft.to
                &&& k < locations@.len()
                &&& locations@[k]@.path() == path@
                &&& r@ == locations@[k]@
                &&& forall|j: int|
                    pft.from <= j < k ==> locations@[j]@.path() != path@
            },
        !(exists|k: int|
            pft.from <= k <= pft.to && k < locations@.len() && locations@[k]@.path() == path@)
            ==> r@ == locations@[pft.parent as int]@,
{
    let mut from: usize = pft.from;
    let to: usize = pft.to;
    while from <= to && from < locations.len()
        invariant
            pft.from <= from,
            to == pft.to,
            locations@.len() == locations.len(),
            forall|j: int|
                pft.from <= j < from && j < locations@.len() ==> locations@[j]@.path() != path@,
        decreases to + 1 - from,
    {
        if bytes_eq(locations[from].path(), path) {
            proof {
                assert(pft.from <= from as int <= pft.to && (from as int) < locations@.len()
                    && locations@[from as int]@.path() == path@);
            }
            return &locations[from];
        }
        from += 1;
    }
    proof {
        assert forall|k: int|
            pft.from <= k <= pft.to && k < locations@.len() implies locations@[k]@.path()
            != path@ by {
            assert(k < from as int);
        }
    }
    &locations[pft.parent]
}

} // verus!
