//! Relative paths as byte strings.
//!
//! Every path handled by the synchronizer is a `/`-separated sequence of
//! components, relative to a root, held as plain bytes. This module defines
//! the total order the whole crate sorts by (`lex_lt`), the component-prefix
//! relation used by the include/exclude rules, and the executable comparisons
//! and joins over them.

use vstd::prelude::*;

verus! {

/// Strict byte-wise lexicographic order: `a` sorts before `b`.
pub open spec fn lex_lt(a: Seq<u8>, b: Seq<u8>) -> bool
    decreases a.len(),
{
    if b.len() == 0 {
        false
    } else if a.len() == 0 {
        true
    } else if a[0] < b[0] {
        true
    } else if a[0] > b[0] {
        false
    } else {
        lex_lt(a.skip(1), b.skip(1))
    }
}

/// `q` is a path prefix of `p`: either the trivial empty prefix, `p` itself,
/// or a leading run of whole components (`q` followed by a `/`).
pub open spec fn path_starts_with(p: Seq<u8>, q: Seq<u8>) -> bool {
    ||| q.len() == 0
    ||| p == q
    ||| (p.len() > q.len() && p.subrange(0, q.len() as int) == q && p[q.len() as int] == 47u8)
}

/// `base` and `p` joined with a `/` separator; an empty side is the identity.
pub open spec fn path_join(base: Seq<u8>, p: Seq<u8>) -> Seq<u8> {
    if base.len() == 0 {
        p
    } else if p.len() == 0 {
        base
    } else {
        base + seq![47u8] + p
    }
}

/// The order is irreflexive.
pub proof fn lemma_lex_lt_irrefl(a: Seq<u8>)
    ensures
        !lex_lt(a, a),
    decreases a.len(),
{
    if a.len() > 0 {
        lemma_lex_lt_irrefl(a.skip(1));
    }
}

/// The order is total: two paths are ordered one way, the other, or equal.
pub proof fn lemma_lex_lt_total(a: Seq<u8>, b: Seq<u8>)
    ensures
        lex_lt(a, b) || lex_lt(b, a) || a == b,
    decreases a.len(),
{
    if a.len() == 0 && b.len() == 0 {
        assert(a =~= b);
    } else if a.len() > 0 && b.len() > 0 && a[0] == b[0] {
        lemma_lex_lt_total(a.skip(1), b.skip(1));
        if a.skip(1) == b.skip(1) {
            assert(a.skip(1).len() == b.skip(1).len());
            assert(a.len() == b.len());
            assert forall|i: int| 0 <= i < a.len() implies a[i] == b[i] by {
                if i > 0 {
                    assert(a[i] == a.skip(1)[i - 1]);
                    assert(b[i] == b.skip(1)[i - 1]);
                }
            }
            assert(a =~= b);
        }
    }
}

/// The order is asymmetric, and strictly ordered paths differ.
pub proof fn lemma_lex_lt_asym(a: Seq<u8>, b: Seq<u8>)
    requires
        lex_lt(a, b),
    ensures
        !lex_lt(b, a),
        a != b,
    decreases a.len(),
{
    if a.len() > 0 && b.len() > 0 && a[0] == b[0] {
        lemma_lex_lt_asym(a.skip(1), b.skip(1));
        if a == b {
            assert(a.skip(1) =~= b.skip(1));
        }
    } else if a.len() == 0 {
        if a == b {
            assert(b.len() == 0);
        }
    }
}

/// The order is transitive.
pub proof fn lemma_lex_lt_trans(a: Seq<u8>, b: Seq<u8>, c: Seq<u8>)
    requires
        lex_lt(a, b),
        lex_lt(b, c),
    ensures
        lex_lt(a, c),
    decreases a.len(),
{
    if a.len() > 0 && c.len() > 0 {
        if b.len() == 0 {
            // lex_lt(b, c) with b empty is fine, but lex_lt(a, b) is false
            assert(false);
        } else {
            if a[0] == b[0] && b[0] == c[0] {
                lemma_lex_lt_trans(a.skip(1), b.skip(1), c.skip(1));
            }
        }
    }
}

/// Dropping one equal leading byte from both sides keeps the order unchanged.
proof fn lemma_lex_lt_step(a: Seq<u8>, b: Seq<u8>, i: int)
    requires
        0 <= i < a.len(),
        i < b.len(),
        a[i] == b[i],
    ensures
        lex_lt(a.skip(i), b.skip(i)) == lex_lt(a.skip(i + 1), b.skip(i + 1)),
{
    assert(a.skip(i)[0] == a[i]);
    assert(b.skip(i)[0] == b[i]);
    assert(a.skip(i).skip(1) =~= a.skip(i + 1));
    assert(b.skip(i).skip(1) =~= b.skip(i + 1));
}

/// A differing byte at position `i` decides the order of the tails.
proof fn lemma_lex_lt_diff(a: Seq<u8>, b: Seq<u8>, i: int)
    requires
        0 <= i < a.len(),
        i < b.len(),
        a[i] < b[i],
    ensures
        lex_lt(a.skip(i), b.skip(i)),
        !lex_lt(b.skip(i), a.skip(i)),
{
    assert(a.skip(i)[0] == a[i]);
    assert(b.skip(i)[0] == b[i]);
}

/// Three-way comparison result for byte paths.
pub enum Cmp {
    Lt,
    Eq,
    Gt,
}

/// Compare two byte paths in the crate's canonical order.
pub fn bytes_cmp(a: &Vec<u8>, b: &Vec<u8>) -> (r: Cmp)
    ensures
        r is Lt <==> lex_lt(a@, b@),
        r is Eq <==> a@ == b@,
        r is Gt <==> lex_lt(b@, a@),
{
    proof {
        lemma_lex_lt_total(a@, b@);
        lemma_lex_lt_irrefl(a@);
        if lex_lt(a@, b@) {
            lemma_lex_lt_asym(a@, b@);
        }
        if lex_lt(b@, a@) {
            lemma_lex_lt_asym(b@, a@);
        }
        assert(a@.skip(0) =~= a@);
        assert(b@.skip(0) =~= b@);
    }
    let n: usize = if a.len() < b.len() {
        a.len()
    } else {
        b.len()
    };
    let mut i: usize = 0;
    while i < n
        invariant
            0 <= i <= n,
            n <= a@.len(),
            n <= b@.len(),
            n == a@.len() || n == b@.len(),
            forall|j: int| 0 <= j < i ==> a@[j] == b@[j],
            lex_lt(a@, b@) == lex_lt(a@.skip(i as int), b@.skip(i as int)),
            lex_lt(b@, a@) == lex_lt(b@.skip(i as int), a@.skip(i as int)),
        decreases n - i,
    {
        let x = a[i];
        let y = b[i];
        if x < y {
            proof {
                lemma_lex_lt_diff(a@, b@, i as int);
            }
            return Cmp::Lt;
        } else if y < x {
            proof {
                lemma_lex_lt_diff(b@, a@, i as int);
            }
            return Cmp::Gt;
        }
        proof {
            lemma_lex_lt_step(a@, b@, i as int);
            lemma_lex_lt_step(b@, a@, i as int);
        }
        i += 1;
    }
    if a.len() == b.len() {
        proof {
            assert(a@ =~= b@);
        }
        Cmp::Eq
    } else if a.len() < b.len() {
        proof {
            assert(a@.skip(i as int).len() == 0);
            assert(b@.skip(i as int).len() > 0);
        }
        Cmp::Lt
    } else {
        proof {
            assert(b@.skip(i as int).len() == 0);
            assert(a@.skip(i as int).len() > 0);
        }
        Cmp::Gt
    }
}

/// Byte-path equality.
pub fn bytes_eq(a: &Vec<u8>, b: &Vec<u8>) -> (r: bool)
    ensures
        r == (a@ == b@),
{
    match bytes_cmp(a, b) {
        Cmp::Eq => true,
        _ => false,
    }
}

/// Strict order test: `a` sorts before `b`.
pub fn bytes_lt(a: &Vec<u8>, b: &Vec<u8>) -> (r: bool)
    ensures
        r == lex_lt(a@, b@),
{
    match bytes_cmp(a, b) {
        Cmp::Lt => true,
        _ => false,
    }
}

/// Copy a byte path.
pub fn bytes_dup(a: &Vec<u8>) -> (r: Vec<u8>)
    ensures
        r@ == a@,
{
    let mut r: Vec<u8> = Vec::new();
    let mut i: usize = 0;
    while i < a.len()
        invariant
            0 <= i <= a@.len(),
            r@ == a@.subrange(0, i as int),
        decreases a@.len() - i,
    {
        r.push(a[i]);
        proof {
            assert(r@ =~= a@.subrange(0, i + 1));
        }
        i += 1;
    }
    proof {
        assert(a@.subrange(0, a@.len() as int) =~= a@);
    }
    r
}

/// Does `q` name `p` or an ancestor of `p`?
pub fn starts_with_path(p: &Vec<u8>, q: &Vec<u8>) -> (r: bool)
    ensures
        r == path_starts_with(p@, q@),
{
    if q.len() == 0 {
        return true;
    }
    if p.len() < q.len() {
        proof {
            if p@ == q@ {
                assert(p@.len() == q@.len());
            }
        }
        return false;
    }
    let mut i: usize = 0;
    while i < q.len()
        invariant
            0 <= i <= q@.len(),
            q@.len() <= p@.len(),
            forall|j: int| 0 <= j < i ==> p@[j] == q@[j],
        decreases q@.len() - i,
    {
        if p[i] != q[i] {
            proof {
                if p@ == q@ {
                    assert(p@[i as int] == q@[i as int]);
                }
                if p@.subrange(0, q@.len() as int) == q@ {
                    assert(p@.subrange(0, q@.len() as int)[i as int] == q@[i as int]);
                }
            }
            return false;
        }
        i += 1;
    }
    if p.len() == q.len() {
        proof {
            assert(p@ =~= q@);
        }
        true
    } else {
        proof {
            assert(p@.subrange(0, q@.len() as int) =~= q@);
        }
        let r = p[q.len()];
        r == 47u8
    }
}

/// Join `base` and `p` with a `/`; an empty side yields the other unchanged.
pub fn join_paths(base: &Vec<u8>, p: &Vec<u8>) -> (r: Vec<u8>)
    ensures
        r@ == path_join(base@, p@),
{
    if base.len() == 0 {
        return bytes_dup(p);
    }
    if p.len() == 0 {
        return bytes_dup(base);
    }
    let mut r = bytes_dup(base);
    r.push(47u8);
    let mut i: usize = 0;
    while i < p.len()
        invariant
            0 <= i <= p@.len(),
            r@ == base@ + seq![47u8] + p@.subrange(0, i as int),
        decreases p@.len() - i,
    {
        r.push(p[i]);
        proof {
            assert(r@ =~= base@ + seq![47u8] + p@.subrange(0, i + 1));
        }
        i += 1;
    }
    proof {
        assert(p@.subrange(0, p@.len() as int) =~= p@);
        assert(r@ =~= base@ + seq![47u8] + p@);
    }
    r
}

/// What remains of `p` once the prefix `base` is stripped.
pub open spec fn path_rel(p: Seq<u8>, base: Seq<u8>) -> Seq<u8> {
    if base.len() == 0 {
        p
    } else if p == base {
        Seq::empty()
    } else {
        p.skip(base.len() as int + 1)
    }
}

/// Strip the leading `base` (and its separator) from `p`.
pub fn relative(base: &Vec<u8>, p: &Vec<u8>) -> (r: Vec<u8>)
    requires
        path_starts_with(p@, base@),
    ensures
        r@ == path_rel(p@, base@),
{
    if base.len() == 0 {
        return bytes_dup(p);
    }
    if p.len() == base.len() {
        proof {
            if p@ != base@ {
                assert(p@.len() > base@.len());
            }
        }
        return Vec::new();
    }
    proof {
        if p@ == base@ {
            assert(p@.len() == base@.len());
        }
    }
    let mut r: Vec<u8> = Vec::new();
    let start: usize = base.len() + 1;
    let mut i: usize = start;
    while i < p.len()
        invariant
            start == base@.len() + 1,
            start <= i <= p@.len(),
            r@ == p@.subrange(start as int, i as int),
        decreases p@.len() - i,
    {
        r.push(p[i]);
        proof {
            assert(r@ =~= p@.subrange(start as int, i + 1));
        }
        i += 1;
    }
    proof {
        assert(r@ =~= p@.skip(base@.len() as int + 1));
    }
    r
}

} // verus!
