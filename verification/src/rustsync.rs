//! An rsync-like delta protocol over plain byte strings.
//!
//! [`signature`] cuts a source into fixed windows and records a weak
//! (Adler-32) and a strong (BLAKE2b-32) hash per window. [`compare`] slides a
//! window over a target and emits [`Block::FromSource`] wherever both hashes
//! match a recorded window, buffering unmatched bytes into
//! [`Block::Literal`]s. [`restore`] replays a delta against the source bytes.
//!
//! [`lemma_delta_round_trip`] states the protocol's correctness: as long as
//! the two hashes do not collide between the target's windows and the
//! source's blocks, restore ∘ compare ∘ signature is the identity on the
//! target.

use vstd::prelude::*;

verus! {

use vstd::math::min;

/// The Adler-32 checksum of a byte string, as the `adler32` crate computes it.
pub uninterp spec fn adler_of(data: Seq<u8>) -> u32;

/// The unkeyed 32-byte BLAKE2b digest of a byte string, as `blake2_rfc`
/// computes it.
pub uninterp spec fn blake2_of(data: Seq<u8>) -> Seq<u8>;

/// Relies on `adler32::RollingAdler32::from_buffer` and `hash`: the Adler-32
/// checksum of exactly the bytes fed in, a function of those bytes alone.
#[verifier::external_body]
pub(crate) fn weak_hash(data: &[u8]) -> (r: u32)
    ensures
        r == adler_of(data@),
{
    adler32::RollingAdler32::from_buffer(data).hash()
}

/// Relies on `blake2_rfc::blake2b::blake2b`: the unkeyed BLAKE2b digest of
/// the bytes, truncated to the requested 32 bytes; a function of the bytes
/// alone, and always 32 bytes long.
#[verifier::external_body]
pub(crate) fn strong_hash(data: &[u8]) -> (r: Vec<u8>)
    ensures
        r@ == blake2_of(data@),
        r@.len() == 32,
{
    blake2_rfc::blake2b::blake2b(32, &[], data).as_bytes().to_vec()
}

/// Mathematical value of a [`SigBlock`].
pub ghost struct SigBlockV {
    pub weak: u32,
    pub strong: Seq<u8>,
    pub offset: int,
}

/// One recorded source window: its weak and strong hash and its byte offset.
#[derive(Debug, PartialEq)]
pub struct SigBlock {
    pub weak: u32,
    pub strong: Vec<u8>,
    pub offset: usize,
}

impl View for SigBlock {
    type V = SigBlockV;

    open spec fn view(&self) -> SigBlockV {
        SigBlockV { weak: self.weak, strong: self.strong@, offset: self.offset as int }
    }
}

/// View of a chunk list.
pub open spec fn chunks_view(s: Seq<SigBlock>) -> Seq<SigBlockV> {
    s.map_values(|c: SigBlock| c@)
}

/// Mathematical value of a [`Signature`].
pub ghost struct SignatureV {
    pub window: int,
    pub chunks: Seq<SigBlockV>,
}

/// The signature of a file: a content-indexed description of its windows.
#[derive(Debug, PartialEq)]
pub struct Signature {
    pub window: usize,
    pub chunks: Vec<SigBlock>,
}

impl View for Signature {
    type V = SignatureV;

    open spec fn view(&self) -> SignatureV {
        SignatureV { window: self.window as int, chunks: chunks_view(self.chunks@) }
    }
}

/// Mathematical value of a [`Block`].
pub ghost enum BlockV {
    FromSource(int),
    Literal(Seq<u8>),
}

/// One piece of a delta: copy a window from the source, or splice in bytes.
#[derive(Debug, PartialEq)]
pub enum Block {
    FromSource(u64),
    Literal(Vec<u8>),
}

impl View for Block {
    type V = BlockV;

    open spec fn view(&self) -> BlockV {
        match self {
            Block::FromSource(i) => BlockV::FromSource(*i as int),
            Block::Literal(l) => BlockV::Literal(l@),
        }
    }
}

/// View of a block list.
pub open spec fn blocks_view(s: Seq<Block>) -> Seq<BlockV> {
    s.map_values(|b: Block| b@)
}

/// Mathematical value of a [`Delta`].
pub ghost struct DeltaV {
    pub blocks: Seq<BlockV>,
    pub window: int,
}

/// The result of comparing a signature with a target file.
#[derive(Debug, PartialEq)]
pub struct Delta {
    /// Description of the target in terms of source windows and literal bytes.
    pub blocks: Vec<Block>,
    /// The window size the signature was built with.
    pub window: usize,
}

impl View for Delta {
    type V = DeltaV;

    open spec fn view(&self) -> DeltaV {
        DeltaV { blocks: blocks_view(self.blocks@), window: self.window as int }
    }
}

impl Block {
    /// A copy with the same value.
    pub fn duplicate(&self) -> (r: Self)
        ensures
            r@ == self@,
    {
        match self {
            Block::FromSource(i) => Block::FromSource(*i),
            Block::Literal(l) => Block::Literal(crate::paths::bytes_dup(l)),
        }
    }
}

impl Delta {
    /// A copy with the same value.
    pub fn duplicate(&self) -> (r: Self)
        ensures
            r@ == self@,
    {
        let mut blocks: Vec<Block> = Vec::new();
        let mut k: usize = 0;
        while k < self.blocks.len()
            invariant
                0 <= k <= self.blocks@.len(),
                blocks_view(blocks@) == blocks_view(self.blocks@).take(k as int),
            decreases self.blocks@.len() - k,
        {
            let b = self.blocks[k].duplicate();
            proof {
                assert(blocks_view(blocks@.push(b)) =~= blocks_view(blocks@).push(b@));
                assert(blocks_view(blocks@).push(b@) =~= blocks_view(self.blocks@).take(
                    k as int + 1,
                ));
            }
            blocks.push(b);
            k += 1;
        }
        proof {
            assert(blocks_view(self.blocks@).take(k as int) =~= blocks_view(self.blocks@));
        }
        Delta { blocks, window: self.window }
    }
}

/// The source window starting at `off`: `w` bytes, shortened at the end.
pub open spec fn block_at(s: Seq<u8>, off: int, w: int) -> Seq<u8> {
    s.subrange(off, off + min(w, s.len() - off))
}

/// The windows the signature of `s` records from `off` on: whole windows of
/// `w` bytes, then the short (possibly empty) final window.
pub open spec fn sig_chunks_spec(s: Seq<u8>, w: int, off: int) -> Seq<SigBlockV>
    decreases s.len() - off + 1,
{
    if !(1 <= w && 0 <= off <= s.len()) {
        Seq::empty()
    } else {
        let blk = block_at(s, off, w);
        let head = SigBlockV { weak: adler_of(blk), strong: blake2_of(blk), offset: off };
        if blk.len() == w {
            seq![head] + sig_chunks_spec(s, w, off + w)
        } else {
            seq![head]
        }
    }
}

/// `sig` is the signature of source `s`.
pub open spec fn is_signature_of(sig: SignatureV, s: Seq<u8>) -> bool {
    &&& 1 <= sig.window
    &&& sig.chunks == sig_chunks_spec(s, sig.window, 0)
}

/// Build the signature of `source` with the given window size.
pub fn signature(source: &[u8], window: usize) -> (r: Signature)
    requires
        1 <= window,
    ensures
        r.window == window,
        is_signature_of(r@, source@),
{
    let n: usize = source.len();
    let mut chunks: Vec<SigBlock> = Vec::new();
    let mut off: usize = 0;
    let mut done: bool = false;
    proof {
        assert(chunks_view(chunks@) + sig_chunks_spec(source@, window as int, 0)
            =~= sig_chunks_spec(source@, window as int, 0));
    }
    while !done
        invariant
            1 <= window,
            0 <= off <= n,
            n == source@.len(),
            !done ==> chunks_view(chunks@) + sig_chunks_spec(source@, window as int, off as int)
                == sig_chunks_spec(source@, window as int, 0),
            done ==> chunks_view(chunks@) == sig_chunks_spec(source@, window as int, 0),
        decreases n - off + (if done {
            0int
        } else {
            1int
        }),
    {
        let len: usize = if n - off < window {
            n - off
        } else {
            window
        };
        let blk = vstd::slice::slice_subrange(source, off, off + len);
        let wh = weak_hash(blk);
        let sh = strong_hash(blk);
        let c = SigBlock { weak: wh, strong: sh, offset: off };
        proof {
            let rest = sig_chunks_spec(source@, window as int, off as int);
            assert(blk@ == block_at(source@, off as int, window as int));
            if len == window {
                assert(rest == seq![c@] + sig_chunks_spec(
                    source@,
                    window as int,
                    off as int + window,
                ));
            } else {
                assert(rest == seq![c@]);
                assert(sig_chunks_spec(source@, window as int, off as int) =~= seq![c@]);
            }
            assert(chunks_view(chunks@.push(c)) =~= chunks_view(chunks@).push(c@));
        }
        chunks.push(c);
        proof {
            if len == window {
                assert(chunks_view(chunks@) + sig_chunks_spec(
                    source@,
                    window as int,
                    off as int + window,
                ) =~= sig_chunks_spec(source@, window as int, 0));
            } else {
                assert(chunks_view(chunks@) =~= sig_chunks_spec(source@, window as int, 0));
            }
        }
        off += len;
        if len < window {
            done = true;
        }
    }
    Signature { window, chunks }
}

/// The first recorded window whose two hashes both match, if any.
pub open spec fn find_chunk(chunks: Seq<SigBlockV>, weak: u32, strong: Seq<u8>) -> Option<int>
    decreases chunks.len(),
{
    if chunks.len() == 0 {
        None
    } else if chunks[0].weak == weak && chunks[0].strong == strong {
        Some(0)
    } else {
        match find_chunk(chunks.skip(1), weak, strong) {
            Some(k) => Some(k + 1),
            None => None,
        }
    }
}

/// The offset of the first matching recorded window, if any.
pub open spec fn found_offset(chunks: Seq<SigBlockV>, weak: u32, strong: Seq<u8>) -> Option<int> {
    match find_chunk(chunks, weak, strong) {
        Some(k) => Some(chunks[k].offset),
        None => None,
    }
}

/// A found chunk index is in range and both its hashes match.
pub proof fn lemma_find_chunk_some(chunks: Seq<SigBlockV>, weak: u32, strong: Seq<u8>, k: int)
    requires
        find_chunk(chunks, weak, strong) == Some(k),
    ensures
        0 <= k < chunks.len(),
        chunks[k].weak == weak,
        chunks[k].strong == strong,
    decreases chunks.len(),
{
    if chunks.len() > 0 {
        if chunks[0].weak == weak && chunks[0].strong == strong {
        } else {
            match find_chunk(chunks.skip(1), weak, strong) {
                Some(k1) => {
                    lemma_find_chunk_some(chunks.skip(1), weak, strong, k1);
                    assert(chunks.skip(1)[k1] == chunks[k1 + 1]);
                },
                None => {},
            }
        }
    }
}

/// The linear search finds exactly the first match.
proof fn lemma_find_chunk_first(chunks: Seq<SigBlockV>, weak: u32, strong: Seq<u8>, k: int)
    requires
        0 <= k <= chunks.len(),
        forall|j: int|
            0 <= j < k ==> !((#[trigger] chunks[j]).weak == weak && chunks[j].strong == strong),
        k < chunks.len() ==> chunks[k].weak == weak && chunks[k].strong == strong,
    ensures
        k < chunks.len() ==> find_chunk(chunks, weak, strong) == Some(k),
        k == chunks.len() ==> find_chunk(chunks, weak, strong) is None,
    decreases chunks.len(),
{
    if chunks.len() > 0 {
        if k == 0 {
        } else {
            assert(!(chunks[0].weak == weak && chunks[0].strong == strong));
            assert forall|j: int|
                0 <= j < k - 1 implies !((#[trigger] chunks.skip(1)[j]).weak == weak
                && chunks.skip(1)[j].strong == strong) by {
                assert(chunks.skip(1)[j] == chunks[j + 1]);
            }
            if k - 1 < chunks.skip(1).len() {
                assert(chunks.skip(1)[k - 1] == chunks[k]);
            }
            lemma_find_chunk_first(chunks.skip(1), weak, strong, k - 1);
        }
    }
}

/// Search the signature for a window matching `win` by both hashes, returning
/// the recorded offset of the first match.
fn find_match(sig: &Signature, win: &[u8]) -> (r: Option<usize>)
    ensures
        match r {
            Some(off) => found_offset(sig@.chunks, adler_of(win@), blake2_of(win@)) == Some(
                off as int,
            ),
            None => found_offset(sig@.chunks, adler_of(win@), blake2_of(win@)) is None,
        },
{
    let wh = weak_hash(win);
    let sh = strong_hash(win);
    let ghost cv = sig@.chunks;
    let mut k: usize = 0;
    while k < sig.chunks.len()
        invariant
            0 <= k <= sig.chunks@.len(),
            cv == sig@.chunks,
            cv.len() == sig.chunks@.len(),
            wh == adler_of(win@),
            sh@ == blake2_of(win@),
            forall|j: int|
                0 <= j < k ==> !((#[trigger] cv[j]).weak == wh && cv[j].strong == sh@),
        decreases sig.chunks@.len() - k,
    {
        if sig.chunks[k].weak == wh && crate::paths::bytes_eq(&sig.chunks[k].strong, &sh) {
            proof {
                lemma_find_chunk_first(cv, wh, sh@, k as int);
            }
            return Some(sig.chunks[k].offset);
        }
        k += 1;
    }
    proof {
        lemma_find_chunk_first(cv, wh, sh@, k as int);
    }
    None
}

/// The delta `compare` produces from position `pos` on, with `pending` bytes
/// of unmatched literal already buffered.
pub open spec fn delta_blocks_spec(sig: SignatureV, t: Seq<u8>, pos: int, pending: Seq<u8>) -> Seq<
    BlockV,
>
    decreases t.len() - pos,
{
    if !(1 <= sig.window && 0 <= pos <= t.len()) {
        Seq::empty()
    } else if pos == t.len() {
        if pending.len() == 0 {
            Seq::empty()
        } else {
            seq![BlockV::Literal(pending)]
        }
    } else {
        let win = t.subrange(pos, pos + min(sig.window, t.len() - pos));
        match found_offset(sig.chunks, adler_of(win), blake2_of(win)) {
            Some(off) => (if pending.len() == 0 {
                Seq::empty()
            } else {
                seq![BlockV::Literal(pending)]
            }) + seq![BlockV::FromSource(off)] + delta_blocks_spec(
                sig,
                t,
                pos + win.len(),
                Seq::empty(),
            ),
            None => delta_blocks_spec(sig, t, pos + 1, pending.push(t[pos])),
        }
    }
}

/// Compare a signature with a target: slide a window over the target, copy
/// matched source windows by reference and buffer everything else as literals.
pub fn compare(sig: &Signature, target: &[u8]) -> (d: Delta)
    requires
        1 <= sig.window,
    ensures
        d.window == sig.window,
        blocks_view(d.blocks@) == delta_blocks_spec(sig@, target@, 0, Seq::empty()),
{
    let n: usize = target.len();
    let window: usize = sig.window;
    let mut blocks: Vec<Block> = Vec::new();
    let mut pending: Vec<u8> = Vec::new();
    let mut pos: usize = 0;
    let ghost sigv = sig@;
    let ghost t = target@;
    proof {
        assert(blocks_view(blocks@) + delta_blocks_spec(sigv, t, 0, pending@)
            =~= delta_blocks_spec(sigv, t, 0, Seq::empty()));
    }
    while pos < n
        invariant
            0 <= pos <= n,
            n == target@.len(),
            1 <= window,
            window == sig.window,
            sigv == sig@,
            t == target@,
            delta_blocks_spec(sigv, t, 0, Seq::empty()) == blocks_view(blocks@)
                + delta_blocks_spec(sigv, t, pos as int, pending@),
        decreases n - pos,
    {
        let len: usize = if n - pos < window {
            n - pos
        } else {
            window
        };
        let win = vstd::slice::slice_subrange(target, pos, pos + len);
        proof {
            assert(win@ == t.subrange(pos as int, pos as int + min(window as int, t.len() - pos)));
        }
        match find_match(sig, win) {
            Some(off) => {
                let ghost before = blocks_view(blocks@);
                let ghost pend = pending@;
                if pending.len() > 0 {
                    let lit = pending;
                    pending = Vec::new();
                    blocks.push(Block::Literal(lit));
                }
                let b = Block::FromSource(off as u64);
                blocks.push(b);
                proof {
                    let lit_part: Seq<BlockV> = if pend.len() == 0 {
                        Seq::empty()
                    } else {
                        seq![BlockV::Literal(pend)]
                    };
                    assert(delta_blocks_spec(sigv, t, pos as int, pend) == lit_part + seq![
                        BlockV::FromSource(off as int)] + delta_blocks_spec(
                        sigv,
                        t,
                        pos + len,
                        Seq::empty(),
                    ));
                    assert(pending@ =~= Seq::<u8>::empty());
                    assert(blocks_view(blocks@) =~= before + lit_part + seq![BlockV::FromSource(
                        off as int,
                    )]);
                    assert(blocks_view(blocks@) + delta_blocks_spec(sigv, t, pos + len, pending@)
                        =~= before + delta_blocks_spec(sigv, t, pos as int, pend));
                }
                pos += len;
            },
            None => {
                proof {
                    assert(delta_blocks_spec(sigv, t, pos as int, pending@) == delta_blocks_spec(
                        sigv,
                        t,
                        pos as int + 1,
                        pending@.push(t[pos as int]),
                    ));
                }
                let byte = *vstd::slice::slice_index_get(target, pos);
                pending.push(byte);
                pos += 1;
            },
        }
    }
    if pending.len() > 0 {
        let ghost pend = pending@;
        let lit = pending;
        let b = Block::Literal(lit);
        proof {
            assert(delta_blocks_spec(sigv, t, pos as int, pend) == seq![BlockV::Literal(pend)]);
            assert(blocks_view(blocks@.push(b)) =~= blocks_view(blocks@).push(b@));
            assert(blocks_view(blocks@).push(b@) =~= blocks_view(blocks@) + seq![
                BlockV::Literal(pend)]);
        }
        blocks.push(b);
    } else {
        proof {
            assert(delta_blocks_spec(sigv, t, pos as int, pending@) =~= Seq::<BlockV>::empty());
            assert(blocks_view(blocks@) + Seq::<BlockV>::empty() =~= blocks_view(blocks@));
        }
    }
    Delta { blocks, window }
}

/// Every source reference in the delta lies within a source of length `n`.
pub open spec fn delta_fits(blocks: Seq<BlockV>, n: int) -> bool {
    forall|k: int|
        0 <= k < blocks.len() ==> match #[trigger] blocks[k] {
            BlockV::FromSource(i) => 0 <= i <= n,
            BlockV::Literal(_) => true,
        }
}

/// What replaying `blocks` against source `s` with window `w` yields.
pub open spec fn restore_spec(s: Seq<u8>, blocks: Seq<BlockV>, w: int) -> Seq<u8>
    decreases blocks.len(),
{
    if blocks.len() == 0 {
        Seq::empty()
    } else {
        let piece: Seq<u8> = match blocks[0] {
            BlockV::FromSource(i) => if i + w <= s.len() {
                s.subrange(i, i + w)
            } else {
                s.subrange(i, s.len() as int)
            },
            BlockV::Literal(l) => l,
        };
        piece + restore_spec(s, blocks.skip(1), w)
    }
}

/// Append a range of a slice to a byte vector.
fn push_slice(out: &mut Vec<u8>, s: &[u8], from: usize, to: usize)
    requires
        0 <= from <= to <= s@.len(),
    ensures
        final(out)@ == old(out)@ + s@.subrange(from as int, to as int),
{
    let mut i: usize = from;
    while i < to
        invariant
            from <= i <= to,
            to <= s@.len(),
            out@ == old(out)@ + s@.subrange(from as int, i as int),
        decreases to - i,
    {
        let b = *vstd::slice::slice_index_get(s, i);
        out.push(b);
        proof {
            assert(out@ =~= old(out)@ + s@.subrange(from as int, i + 1));
        }
        i += 1;
    }
    proof {
        if from == to {
            assert(out@ =~= old(out)@ + s@.subrange(from as int, to as int));
        }
    }
}

/// Replay a delta against the source bytes, reproducing the compared target.
pub fn restore(s: &[u8], delta: &Delta) -> (r: Vec<u8>)
    requires
        delta_fits(blocks_view(delta.blocks@), s@.len() as int),
    ensures
        r@ == restore_spec(s@, blocks_view(delta.blocks@), delta.window as int),
{
    let n: usize = s.len();
    let w: usize = delta.window;
    let mut out: Vec<u8> = Vec::new();
    let mut k: usize = 0;
    let ghost bv = blocks_view(delta.blocks@);
    proof {
        assert(bv.skip(0) =~= bv);
    }
    while k < delta.blocks.len()
        invariant
            0 <= k <= delta.blocks@.len(),
            bv == blocks_view(delta.blocks@),
            bv.len() == delta.blocks@.len(),
            delta_fits(bv, n as int),
            n == s@.len(),
            w == delta.window,
            restore_spec(s@, bv, w as int) == out@ + restore_spec(s@, bv.skip(k as int), w as int),
        decreases delta.blocks@.len() - k,
    {
        let ghost rb = bv.skip(k as int);
        proof {
            assert(rb[0] == bv[k as int]);
            assert(rb.skip(1) =~= bv.skip(k as int + 1));
        }
        match &delta.blocks[k] {
            Block::FromSource(i) => {
                let iu: usize = (*i) as usize;
                proof {
                    assert(bv[k as int] == delta.blocks@[k as int]@);
                    assert(0 <= (*i) as int <= n);
                }
                let end: usize = if n - iu < w {
                    n
                } else {
                    iu + w
                };
                let ghost piece = if iu as int + w <= n {
                    s@.subrange(iu as int, iu as int + w)
                } else {
                    s@.subrange(iu as int, n as int)
                };
                proof {
                    assert(restore_spec(s@, rb, w as int) == piece + restore_spec(
                        s@,
                        rb.skip(1),
                        w as int,
                    ));
                }
                push_slice(&mut out, s, iu, end);
            },
            Block::Literal(l) => {
                proof {
                    assert(bv[k as int] == delta.blocks@[k as int]@);
                    assert(restore_spec(s@, rb, w as int) == l@ + restore_spec(
                        s@,
                        rb.skip(1),
                        w as int,
                    ));
                }
                push_slice(&mut out, l.as_slice(), 0, l.len());
                proof {
                    assert(l@.subrange(0, l@.len() as int) =~= l@);
                }
            },
        }
        k += 1;
    }
    proof {
        assert(bv.skip(k as int).len() == 0);
        assert(restore_spec(s@, bv.skip(k as int), w as int) =~= Seq::<u8>::empty());
        assert(out@ + Seq::<u8>::empty() =~= out@);
    }
    out
}

/// `x` is one of the windows `compare` slides over target `t`.
pub open spec fn is_window_of(x: Seq<u8>, t: Seq<u8>, w: int) -> bool {
    exists|p: int| 0 <= p <= t.len() && x == #[trigger] t.subrange(p, p + min(w, t.len() - p))
}

/// `y` is one of the source windows the signature of `s` records.
pub open spec fn is_block_of(y: Seq<u8>, s: Seq<u8>, w: int) -> bool {
    exists|j: int| 0 <= j && j * w <= s.len() && y == #[trigger] block_at(s, j * w, w)
}

/// Neither hash pair collides between the target's windows and the source's
/// recorded windows: equal hashes mean equal bytes.
pub open spec fn hashes_collision_free(s: Seq<u8>, t: Seq<u8>, w: int) -> bool {
    forall|x: Seq<u8>, y: Seq<u8>|
        #![trigger adler_of(x), adler_of(y)]
        is_window_of(x, t, w) && is_block_of(y, s, w) && adler_of(x) == adler_of(y) && blake2_of(x)
            == blake2_of(y) ==> x == y
}

/// Each recorded chunk `k` sits at offset `k*w` and hashes the window there.
proof fn lemma_sig_chunks_props(s: Seq<u8>, w: int, off: int, k: int)
    requires
        1 <= w,
        0 <= off <= s.len(),
        0 <= k < sig_chunks_spec(s, w, off).len(),
    ensures
        sig_chunks_spec(s, w, off)[k].offset == off + k * w,
        off + k * w <= s.len(),
        sig_chunks_spec(s, w, off)[k].weak == adler_of(block_at(s, off + k * w, w)),
        sig_chunks_spec(s, w, off)[k].strong == blake2_of(block_at(s, off + k * w, w)),
    decreases s.len() - off + 1,
{
    let cs = sig_chunks_spec(s, w, off);
    let blk = block_at(s, off, w);
    if k == 0 {
        assert(cs[0].offset == off);
    } else {
        assert(blk.len() == w);
        let rest = sig_chunks_spec(s, w, off + w);
        assert(cs[k] == rest[k - 1]);
        lemma_sig_chunks_props(s, w, off + w, k - 1);
        assert(off + w + (k - 1) * w == off + k * w) by (nonlinear_arith);
    }
}

/// Splitting a block list splits its restoration.
proof fn lemma_restore_append(s: Seq<u8>, x: Seq<BlockV>, y: Seq<BlockV>, w: int)
    ensures
        restore_spec(s, x + y, w) == restore_spec(s, x, w) + restore_spec(s, y, w),
    decreases x.len(),
{
    if x.len() == 0 {
        assert(x + y =~= y);
        assert(restore_spec(s, x, w) + restore_spec(s, y, w) =~= restore_spec(s, y, w));
    } else {
        assert((x + y)[0] == x[0]);
        assert((x + y).skip(1) =~= x.skip(1) + y);
        lemma_restore_append(s, x.skip(1), y, w);
        assert(restore_spec(s, x + y, w) =~= restore_spec(s, x, w) + restore_spec(s, y, w));
    }
}

/// Restoring the delta built from position `pos` with `pending` buffered
/// yields the buffered bytes followed by the rest of the target.
proof fn lemma_restore_delta_rec(s: Seq<u8>, t: Seq<u8>, sig: SignatureV, pos: int, pending: Seq<
    u8,
>)
    requires
        is_signature_of(sig, s),
        hashes_collision_free(s, t, sig.window),
        0 <= pos <= t.len(),
    ensures
        restore_spec(s, delta_blocks_spec(sig, t, pos, pending), sig.window) == pending + t.skip(
            pos,
        ),
    decreases t.len() - pos,
{
    let w = sig.window;
    let ds = delta_blocks_spec(sig, t, pos, pending);
    if pos == t.len() {
        assert(t.skip(pos) =~= Seq::<u8>::empty());
        if pending.len() == 0 {
            assert(pending + t.skip(pos) =~= Seq::<u8>::empty());
        } else {
            assert(ds == seq![BlockV::Literal(pending)]);
            assert(ds.skip(1) =~= Seq::<BlockV>::empty());
            assert(restore_spec(s, Seq::<BlockV>::empty(), w) == Seq::<u8>::empty());
            assert(restore_spec(s, ds, w) == pending + restore_spec(s, ds.skip(1), w));
            assert(restore_spec(s, ds, w) =~= pending + t.skip(pos));
        }
    } else {
        let win = t.subrange(pos, pos + min(w, t.len() - pos));
        match found_offset(sig.chunks, adler_of(win), blake2_of(win)) {
            Some(off) => {
                let k = find_chunk(sig.chunks, adler_of(win), blake2_of(win)).unwrap();
                lemma_find_chunk_some(sig.chunks, adler_of(win), blake2_of(win), k);
                lemma_sig_chunks_props(s, w, 0, k);
                let blk = block_at(s, k * w, w);
                assert(off == k * w);
                assert(adler_of(win) == adler_of(blk));
                assert(blake2_of(win) == blake2_of(blk));
                assert(is_window_of(win, t, w)) by {
                    assert(0 <= pos <= t.len() && win == t.subrange(
                        pos,
                        pos + min(w, t.len() - pos),
                    ));
                }
                assert(is_block_of(blk, s, w)) by {
                    assert(0 <= k && k * w <= s.len() && blk == block_at(s, k * w, w));
                }
                assert(win == blk);
                let lit_part: Seq<BlockV> = if pending.len() == 0 {
                    Seq::empty()
                } else {
                    seq![BlockV::Literal(pending)]
                };
                let rest = delta_blocks_spec(sig, t, pos + win.len(), Seq::empty());
                assert(ds == lit_part + seq![BlockV::FromSource(off)] + rest);
                lemma_restore_append(s, lit_part + seq![BlockV::FromSource(off)], rest, w);
                lemma_restore_append(s, lit_part, seq![BlockV::FromSource(off)], w);
                // the copied source piece is exactly the matched window
                let piece: Seq<u8> = if off + w <= s.len() {
                    s.subrange(off, off + w)
                } else {
                    s.subrange(off, s.len() as int)
                };
                assert(piece =~= blk);
                assert(restore_spec(s, Seq::<BlockV>::empty(), w) == Seq::<u8>::empty());
                assert(seq![BlockV::FromSource(off)].skip(1) =~= Seq::<BlockV>::empty());
                assert(restore_spec(s, seq![BlockV::FromSource(off)], w) == piece + restore_spec(
                    s,
                    seq![BlockV::FromSource(off)].skip(1),
                    w,
                ));
                assert(restore_spec(s, seq![BlockV::FromSource(off)], w) =~= piece);
                if pending.len() == 0 {
                    assert(pending =~= Seq::<u8>::empty());
                    assert(restore_spec(s, lit_part, w) =~= pending);
                } else {
                    assert(lit_part.skip(1) =~= Seq::<BlockV>::empty());
                    assert(restore_spec(s, lit_part, w) == pending + restore_spec(
                        s,
                        lit_part.skip(1),
                        w,
                    ));
                    assert(restore_spec(s, lit_part, w) =~= pending);
                }
                lemma_restore_delta_rec(s, t, sig, pos + win.len(), Seq::empty());
                assert(restore_spec(s, rest, w) == Seq::<u8>::empty() + t.skip(pos + win.len()));
                assert(Seq::<u8>::empty() + t.skip(pos + win.len()) =~= t.skip(pos + win.len()));
                assert(pending + win + t.skip(pos + win.len()) =~= pending + t.skip(pos));
                assert(restore_spec(s, ds, w) =~= pending + t.skip(pos));
            },
            None => {
                lemma_restore_delta_rec(s, t, sig, pos + 1, pending.push(t[pos]));
                assert(pending.push(t[pos]) + t.skip(pos + 1) =~= pending + t.skip(pos));
            },
        }
    }
}

/// Round trip of the delta protocol: restoring, against a source, the delta
/// computed from the source's signature and any target reproduces the target
/// exactly — provided the hash pair does not collide between the target's
/// windows and the source's recorded windows.
pub proof fn lemma_delta_round_trip(s: Seq<u8>, t: Seq<u8>, sig: SignatureV)
    requires
        is_signature_of(sig, s),
        hashes_collision_free(s, t, sig.window),
    ensures
        restore_spec(s, delta_blocks_spec(sig, t, 0, Seq::empty()), sig.window) == t,
{
    lemma_restore_delta_rec(s, t, sig, 0, Seq::empty());
    assert(Seq::<u8>::empty() + t.skip(0) =~= t);
}

/// Every source reference a comparison emits fits the compared source.
pub proof fn lemma_delta_fits(s: Seq<u8>, t: Seq<u8>, sig: SignatureV, pos: int, pending: Seq<u8>)
    requires
        is_signature_of(sig, s),
        0 <= pos <= t.len(),
    ensures
        delta_fits(delta_blocks_spec(sig, t, pos, pending), s.len() as int),
    decreases t.len() - pos,
{
    let w = sig.window;
    let ds = delta_blocks_spec(sig, t, pos, pending);
    if pos == t.len() {
    } else {
        let win = t.subrange(pos, pos + min(w, t.len() - pos));
        match found_offset(sig.chunks, adler_of(win), blake2_of(win)) {
            Some(off) => {
                let k = find_chunk(sig.chunks, adler_of(win), blake2_of(win)).unwrap();
                lemma_find_chunk_some(sig.chunks, adler_of(win), blake2_of(win), k);
                lemma_sig_chunks_props(s, w, 0, k);
                lemma_delta_fits(s, t, sig, pos + win.len(), Seq::empty());
                let lit_part: Seq<BlockV> = if pending.len() == 0 {
                    Seq::empty()
                } else {
                    seq![BlockV::Literal(pending)]
                };
                let rest = delta_blocks_spec(sig, t, pos + win.len(), Seq::empty());
                assert(ds == lit_part + seq![BlockV::FromSource(off)] + rest);
                assert forall|j: int| 0 <= j < ds.len() implies match #[trigger] ds[j] {
                    BlockV::FromSource(i) => 0 <= i <= s.len(),
                    BlockV::Literal(_) => true,
                } by {
                    if j < lit_part.len() {
                    } else if j == lit_part.len() {
                        assert(ds[j] == BlockV::FromSource(off));
                    } else {
                        assert(ds[j] == rest[j - lit_part.len() - 1]);
                    }
                }
            },
            None => {
                lemma_delta_fits(s, t, sig, pos + 1, pending.push(t[pos]));
            },
        }
    }
}

} // verus!
