//! Splitting a sparse image into fragments that each fit a transfer budget.

use vstd::prelude::*;
use crate::image::{
    chunk_output, chunk_well_formed, expanded, image_well_formed, lemma_sum_blocks_nonneg, lemma_sum_blocks_prefix,
    sum_blocks, ScannedChunk,
};
use crate::sparse::{
    spec_data_size, valid_chunk_header, ChunkHeader, ChunkType, FileHeader,
    CHUNK_HEADER_BYTES_LEN, FILE_HEADER_BYTES_LEN,
};

verus! {

/// One fragment: a file header and chunks whose payloads are read from the
/// source image (a synthesized skip chunk carries no payload).
#[derive(Clone, Debug)]
pub struct Split {
    pub header: FileHeader,
    pub chunks: Vec<ScannedChunk>,
}

#[derive(Clone, Copy, Debug, PartialEq, Eq, Structural)]
pub enum SplitError {
    /// The budget cannot hold even the smallest meaningful fragment.
    PlanInfeasible,
}

/// Bytes on the wire of a sequence of chunks, headers included.
pub open spec fn chunks_wire_size(chunks: Seq<ScannedChunk>) -> int
    decreases chunks.len(),
{
    if chunks.len() == 0 {
        0
    } else {
        chunks_wire_size(chunks.drop_last()) + CHUNK_HEADER_BYTES_LEN + chunks.last().size
    }
}

/// Bytes on the wire of a whole fragment.
pub open spec fn fragment_wire_size(f: Split) -> int {
    FILE_HEADER_BYTES_LEN + chunks_wire_size(f.chunks@)
}

/// The smallest budget that a fragment with a leading skip chunk and one
/// block of raw data needs.
pub open spec fn min_split_budget(block_size: int) -> int {
    FILE_HEADER_BYTES_LEN + 2 * CHUNK_HEADER_BYTES_LEN + block_size
}

/// A chunk whose header agrees with its payload length.
pub open spec fn chunk_consistent(block_size: int, c: ScannedChunk) -> bool {
    &&& valid_chunk_header(c.header)
    &&& c.size == spec_data_size(c.header)
    &&& c.header.chunk_type == ChunkType::Raw ==> c.size == c.header.chunk_size * block_size
    &&& c.header.chunk_type == ChunkType::Crc32 ==> c.header.chunk_size == 0
}

/// The skip chunk that opens a fragment whose predecessors cover `blocks`.
pub open spec fn leading_skip(blocks: u32) -> ScannedChunk {
    ScannedChunk {
        header: ChunkHeader { chunk_type: ChunkType::DontCare, chunk_size: blocks, total_size: 12 },
        offset: 0,
        size: 0,
    }
}

/// Bytes that fragment `i` took from the budget: its size on the wire, and
/// for the first fragment also the room kept for a leading skip.
pub open spec fn fragment_used(frags: Seq<Split>, i: int) -> int {
    fragment_wire_size(frags[i]) + if i == 0 { CHUNK_HEADER_BYTES_LEN as int } else { 0int }
}

/// The least room that placing `c` takes: one block of a raw chunk, which
/// can be cut, or the whole of any other.
pub open spec fn least_need(c: ScannedChunk, block_size: int) -> int {
    CHUNK_HEADER_BYTES_LEN + if c.header.chunk_type == ChunkType::Raw && c.size >= block_size {
        block_size
    } else {
        c.size as int
    }
}

/// Fragment `i` was closed only because the first data chunk of the next
/// one, or even one block of it, did not fit.
pub open spec fn could_not_take(frags: Seq<Split>, i: int, block_size: int, max_bytes: int) -> bool {
    &&& frags[i + 1].chunks@.len() > 1
    &&& fragment_used(frags, i) + least_need(frags[i + 1].chunks@[1], block_size) > max_bytes
}

/// A fragment that stands on its own: a consistent header, consistent
/// chunks, and a size within the budget.
pub open spec fn fragment_ok(f: Split, block_size: u32, max_bytes: u32) -> bool {
    &&& f.header.block_size == block_size
    &&& f.header.chunks == f.chunks@.len()
    &&& f.header.blocks == sum_blocks(f.chunks@)
    &&& f.header.checksum == 0
    &&& fragment_wire_size(f) <= max_bytes
    &&& forall|j: int| 0 <= j < f.chunks@.len() ==> chunk_consistent(block_size as int, #[trigger] f.chunks@[j])
}

/// Every fragment after the first opens with a skip over exactly the blocks
/// that the fragment before it covers.
pub open spec fn fragments_linked(frags: Seq<Split>) -> bool {
    forall|i: int| 0 < i < frags.len() ==> {
        &&& (#[trigger] frags[i]).chunks@.len() > 0
        &&& frags[i].chunks@[0] == leading_skip(frags[i - 1].header.blocks)
    }
}

/// What one byte of expanded output is made of: a byte of the source image
/// at an offset, or a zero of a skipped region.
pub enum ByteSource {
    Source(usize),
    Zero,
}

/// What each output byte of a chunk is made of.
pub open spec fn chunk_bytes(block_size: int, c: ScannedChunk) -> Seq<ByteSource> {
    match c.header.chunk_type {
        ChunkType::Raw => Seq::new(c.size as nat, |j: int| ByteSource::Source((c.offset + j) as usize)),
        ChunkType::Fill => Seq::new(
            (c.header.chunk_size * block_size) as nat,
            |j: int| ByteSource::Source((c.offset + j % 4) as usize),
        ),
        ChunkType::DontCare => Seq::new((c.header.chunk_size * block_size) as nat, |j: int| ByteSource::Zero),
        ChunkType::Crc32 => Seq::empty(),
    }
}

/// What each output byte of a sequence of chunks is made of, in order.
pub open spec fn chunks_bytes(block_size: int, cs: Seq<ScannedChunk>) -> Seq<ByteSource>
    decreases cs.len(),
{
    if cs.len() == 0 {
        Seq::empty()
    } else {
        chunks_bytes(block_size, cs.drop_last()) + chunk_bytes(block_size, cs.last())
    }
}

/// The chunks of a fragment that carry data: all of them in the first
/// fragment, all but the leading skip in the others.
pub open spec fn data_chunks(f: Split, first: bool) -> Seq<ScannedChunk> {
    if first {
        f.chunks@
    } else {
        f.chunks@.skip(1)
    }
}

/// The data chunks of all fragments, in order.
pub open spec fn all_data_chunks(frags: Seq<Split>) -> Seq<ScannedChunk>
    decreases frags.len(),
{
    if frags.len() == 0 {
        Seq::empty()
    } else {
        all_data_chunks(frags.drop_last()) + data_chunks(frags.last(), frags.len() == 1)
    }
}

proof fn lemma_push_bytes(block_size: int, s: Seq<ScannedChunk>, c: ScannedChunk)
    ensures
        chunks_bytes(block_size, s.push(c)) == chunks_bytes(block_size, s) + chunk_bytes(block_size, c),
{
    assert(s.push(c).drop_last() =~= s);
}

/// Bytes `[o, o + len)` of the source, in order.
pub open spec fn source_run(o: int, len: int) -> Seq<ByteSource> {
    Seq::new(len as nat, |j: int| ByteSource::Source((o + j) as usize))
}

proof fn lemma_source_run_split(o: int, a: int, b: int)
    requires
        a >= 0,
        b >= 0,
    ensures
        source_run(o, a + b) == source_run(o, a) + source_run(o + a, b),
{
    assert(source_run(o, a + b) =~= source_run(o, a) + source_run(o + a, b));
}

proof fn lemma_push_sums(s: Seq<ScannedChunk>, c: ScannedChunk)
    ensures
        s.push(c).drop_last() == s,
        sum_blocks(s.push(c)) == sum_blocks(s) + c.header.chunk_size,
        chunks_wire_size(s.push(c)) == chunks_wire_size(s) + CHUNK_HEADER_BYTES_LEN + c.size,
{
    assert(s.push(c).drop_last() =~= s);
}

fn close_fragment(out: &mut Vec<Split>, block_size: u32, blocks: u32, chunks: Vec<ScannedChunk>)
    requires
        chunks@.len() <= u32::MAX,
    ensures
        final(out)@ == old(out)@.push(
            Split {
                header: FileHeader { block_size, blocks, chunks: chunks@.len() as u32, checksum: 0 },
                chunks,
            },
        ),
{
    let n = chunks.len() as u32;
    out.push(Split { header: FileHeader { block_size, blocks, chunks: n, checksum: 0 }, chunks });
}

proof fn lemma_extend_fragments(prev: Seq<Split>, f: Split, block_size: u32, max_bytes: u32)
    requires
        forall|i: int| 0 <= i < prev.len() ==> fragment_ok(#[trigger] prev[i], block_size, max_bytes),
        fragments_linked(prev),
        fragment_ok(f, block_size, max_bytes),
        prev.len() > 0 ==> f.chunks@.len() > 0 && f.chunks@[0] == leading_skip(prev.last().header.blocks),
    ensures
        forall|i: int| 0 <= i < prev.push(f).len() ==> fragment_ok(#[trigger] prev.push(f)[i], block_size, max_bytes),
        fragments_linked(prev.push(f)),
{
    let s = prev.push(f);
    assert forall|i: int| 0 <= i < s.len() implies fragment_ok(#[trigger] s[i], block_size, max_bytes) by {
        if i < prev.len() {
            assert(s[i] == prev[i]);
        }
    }
    assert forall|i: int| 0 < i < s.len() implies {
        &&& (#[trigger] s[i]).chunks@.len() > 0
        &&& s[i].chunks@[0] == leading_skip(s[i - 1].header.blocks)
    } by {
        if i < prev.len() {
            assert(s[i] == prev[i]);
        }
        assert(s[i - 1] == prev[i - 1]);
    }
}

/// The skip chunk that opens a fragment whose predecessors cover `blocks`.
fn make_leading_skip(blocks: u32) -> (r: ScannedChunk)
    ensures
        r == leading_skip(blocks),
{
    ScannedChunk {
        header: ChunkHeader { chunk_type: ChunkType::DontCare, chunk_size: blocks, total_size: 12 },
        offset: 0,
        size: 0,
    }
}

/// The fragments closed so far and the one being filled.
struct Planner {
    out: Vec<Split>,
    cur: Vec<ScannedChunk>,
    /// Bytes the open fragment takes, with room kept for a leading skip chunk.
    used: u64,
    /// Blocks the open fragment covers, its leading skip included.
    cur_blocks: u64,
    has_data: bool,
    block_size: u32,
    max_bytes: u32,
    /// The data chunks placed so far, over all fragments.
    emitted: Ghost<Seq<ScannedChunk>>,
    /// Bytes the last closed fragment took.
    last_close_used: Ghost<int>,
}

impl Planner {
    #[verifier::opaque]
    spec fn inv(&self) -> bool {
        &&& self.cur_blocks == sum_blocks(self.cur@)
        &&& self.used == FILE_HEADER_BYTES_LEN + chunks_wire_size(self.cur@) + (if self.out@.len() == 0 { 12int } else { 0int })
        &&& self.cur@.len() <= self.used
        &&& !self.has_data ==> self.cur@.len() == (if self.out@.len() == 0 { 0int } else { 1int })
        &&& self.out@.len() > 0 ==> self.cur@.len() > 0 && self.cur@[0] == leading_skip(self.out@.last().header.blocks)
        &&& forall|j: int| 0 <= j < self.cur@.len() ==> chunk_consistent(self.block_size as int, #[trigger] self.cur@[j])
        &&& forall|i: int| 0 <= i < self.out@.len() ==> fragment_ok(#[trigger] self.out@[i], self.block_size, self.max_bytes)
        &&& fragments_linked(self.out@)
        &&& self.emitted@ == all_data_chunks(self.out@) + (if self.out@.len() == 0 { self.cur@ } else { self.cur@.skip(1) })
        &&& forall|i: int| 0 <= i < self.out@.len() - 1 ==> #[trigger] could_not_take(self.out@, i, self.block_size as int, self.max_bytes as int)
        &&& self.out@.len() > 0 ==> fragment_used(self.out@, self.out@.len() - 1) == self.last_close_used@
        &&& self.out@.len() > 0 && self.has_data ==> self.cur@.len() > 1
            && self.last_close_used@ + least_need(self.cur@[1], self.block_size as int) > self.max_bytes
    }

    spec fn bounds(&self) -> bool {
        &&& 40 <= self.used <= self.max_bytes
        &&& !self.has_data ==> self.used == 40
        &&& self.cur_blocks <= u32::MAX
    }

    fn new(block_size: u32, max_bytes: u32) -> (r: Planner)
        requires
            max_bytes >= 40,
        ensures
            r.inv(),
            r.bounds(),
            r.used == 40,
            r.cur_blocks == 0,
            !r.has_data,
            r.block_size == block_size,
            r.max_bytes == max_bytes,
            r.emitted@ == Seq::<ScannedChunk>::empty(),
            r.out@.len() == 0,
    {
        let r = Planner {
            out: Vec::new(),
            cur: Vec::new(),
            used: 40,
            cur_blocks: 0,
            has_data: false,
            block_size,
            max_bytes,
            emitted: Ghost(Seq::empty()),
            last_close_used: Ghost(0),
        };
        proof {
            reveal(Planner::inv);
            assert(r.emitted@ =~= all_data_chunks(r.out@) + r.cur@);
        }
        r
    }

    /// Appends a chunk that fits to the open fragment.
    fn push_chunk(&mut self, c: ScannedChunk)
        requires
            old(self).inv(),
            old(self).bounds(),
            chunk_consistent(old(self).block_size as int, c),
            old(self).used + CHUNK_HEADER_BYTES_LEN + c.size <= old(self).max_bytes,
            old(self).cur_blocks + c.header.chunk_size <= u32::MAX,
            old(self).out@.len() > 0 && !old(self).has_data
                ==> old(self).last_close_used@ + least_need(c, old(self).block_size as int) > old(self).max_bytes,
        ensures
            final(self).last_close_used@ == old(self).last_close_used@,
            final(self).inv(),
            final(self).bounds(),
            final(self).has_data,
            final(self).used == old(self).used + CHUNK_HEADER_BYTES_LEN + c.size,
            final(self).cur_blocks == old(self).cur_blocks + c.header.chunk_size,
            final(self).block_size == old(self).block_size,
            final(self).max_bytes == old(self).max_bytes,
            final(self).out@.len() == old(self).out@.len(),
            final(self).emitted@ == old(self).emitted@.push(c),
    {
        proof {
            reveal(Planner::inv);
            lemma_push_sums(self.cur@, c);
        }
        let ghost old_cur = self.cur@;
        self.cur.push(c);
        self.emitted = Ghost(self.emitted@.push(c));
        proof {
            if self.out@.len() == 0 {
                assert(self.emitted@ =~= all_data_chunks(self.out@) + self.cur@);
            } else {
                assert(self.cur@.skip(1) =~= old_cur.skip(1).push(c));
                assert(self.emitted@ =~= all_data_chunks(self.out@) + self.cur@.skip(1));
            }
            if old_cur.len() > 0 {
                assert(self.cur@[1] == if old_cur.len() > 1 { old_cur[1] } else { c });
            }
        }
        self.used = self.used + 12 + c.size as u64;
        self.cur_blocks = self.cur_blocks + c.header.chunk_size as u64;
        self.has_data = true;
    }

    /// Closes the open fragment and opens the next with its leading skip.
    #[verifier::rlimit(50)]
    fn close(&mut self)
        requires
            old(self).inv(),
            old(self).bounds(),
            old(self).has_data || old(self).out@.len() == 0,
        ensures
            final(self).last_close_used@ == old(self).used,
            final(self).inv(),
            final(self).bounds(),
            !final(self).has_data,
            final(self).used == 40,
            final(self).cur_blocks == old(self).cur_blocks,
            final(self).block_size == old(self).block_size,
            final(self).max_bytes == old(self).max_bytes,
            final(self).out@.len() == old(self).out@.len() + 1,
            final(self).out@.last().header.blocks == old(self).cur_blocks,
            final(self).emitted@ == old(self).emitted@,
            final(self).emitted@ == all_data_chunks(final(self).out@),
    {
        proof {
            reveal(Planner::inv);
        }
        let ghost prev = self.out@;
        let ghost old_cur = self.cur@;
        let blocks = self.cur_blocks as u32;
        let mut next: Vec<ScannedChunk> = Vec::new();
        next.push(make_leading_skip(blocks));
        std::mem::swap(&mut self.cur, &mut next);
        close_fragment(&mut self.out, self.block_size, blocks, next);
        proof {
            lemma_push_sums(Seq::empty(), leading_skip(blocks));
            assert(Seq::<ScannedChunk>::empty().push(leading_skip(blocks)) =~= self.cur@);
            lemma_extend_fragments(prev, self.out@.last(), self.block_size, self.max_bytes);
            assert(self.out@ =~= prev.push(self.out@.last()));
            assert(self.out@.drop_last() =~= prev);
            assert(self.out@.last().chunks@ == old_cur);
            assert(self.cur@.skip(1) =~= Seq::<ScannedChunk>::empty());
            assert(self.emitted@ =~= all_data_chunks(self.out@) + self.cur@.skip(1));
            assert forall|i: int| 0 <= i < self.out@.len() - 1 implies #[trigger] could_not_take(self.out@, i, self.block_size as int, self.max_bytes as int) by {
                assert(self.out@[i + 1] == if i + 1 < prev.len() { prev[i + 1] } else { self.out@.last() });
                assert(self.out@[i] == prev[i]);
                if i + 1 < prev.len() {
                    assert(could_not_take(prev, i, self.block_size as int, self.max_bytes as int));
                }
            }
        }
        self.last_close_used = Ghost(old(self).used as int);
        self.used = 40;
        self.has_data = false;
    }

    /// Closes the open fragment if it holds anything and hands out the list.
    #[verifier::rlimit(50)]
    fn finish(self) -> (r: Vec<Split>)
        requires
            self.inv(),
            self.bounds(),
        ensures
            r@.len() > 0,
            r@.last().header.blocks == self.cur_blocks,
            fragments_linked(r@),
            forall|i: int| 0 <= i < r@.len() ==> fragment_ok(#[trigger] r@[i], self.block_size, self.max_bytes),
            all_data_chunks(r@) == self.emitted@,
            forall|i: int| 0 <= i < r@.len() - 1 ==> #[trigger] could_not_take(r@, i, self.block_size as int, self.max_bytes as int),
    {
        let mut p = self;
        if p.has_data || p.out.len() == 0 {
            p.close();
            proof {
                reveal(Planner::inv);
            }
        } else {
            proof {
                reveal(Planner::inv);
                assert(p.cur@.drop_last() =~= Seq::<ScannedChunk>::empty());
                assert(sum_blocks(Seq::<ScannedChunk>::empty()) == 0);
                assert(p.cur@.last() == p.cur@[0]);
                assert(p.cur@.skip(1) =~= Seq::<ScannedChunk>::empty());
                assert(p.emitted@ =~= all_data_chunks(p.out@));
            }
        }
        p.out
    }
}

/// Splits the chunks of an image into fragments of at most `max_bytes` bytes
/// on the wire. Every fragment but the first opens with a skip chunk over
/// the blocks that the fragments before it cover, so each can be flashed on
/// its own to the same target. Each fragment reserves room for that skip
/// chunk; a raw chunk that does not fit is cut at a block boundary, and any
/// other chunk that does not fit moves to the next fragment.
#[verifier::spinoff_prover]
#[verifier::rlimit(100)]
pub fn split_image(header: &FileHeader, chunks: &[ScannedChunk], max_bytes: u32) -> (r: Result<Vec<Split>, SplitError>)
    requires
        header.block_size % 4 == 0,
        sum_blocks(chunks@) == header.blocks,
        forall|i: int| 0 <= i < chunks@.len() ==> chunk_consistent(header.block_size as int, #[trigger] chunks@[i]),
        forall|i: int| 0 <= i < chunks@.len() ==> (#[trigger] chunks@[i]).offset + chunks@[i].size <= usize::MAX,
    ensures
        r is Err <==> (max_bytes < min_split_budget(header.block_size as int) || exists|i: int|
            0 <= i < chunks@.len() && #[trigger] chunks@[i].header.chunk_type != ChunkType::Raw
                && FILE_HEADER_BYTES_LEN + 2 * CHUNK_HEADER_BYTES_LEN + chunks@[i].size > max_bytes),
        r is Err ==> r == Err::<Vec<Split>, SplitError>(SplitError::PlanInfeasible),
        r is Ok ==> {
            let frags = r->Ok_0@;
            &&& frags.len() > 0
            &&& frags.last().header.blocks == header.blocks
            &&& fragments_linked(frags)
            &&& forall|i: int| 0 <= i < frags.len() ==> fragment_ok(#[trigger] frags[i], header.block_size, max_bytes)
            &&& chunks_bytes(header.block_size as int, all_data_chunks(frags)) == chunks_bytes(header.block_size as int, chunks@)
            &&& forall|i: int| 0 <= i < frags.len() - 1 ==> #[trigger] could_not_take(frags, i, header.block_size as int, max_bytes as int)
        },
{
    let bs = header.block_size as u64;
    if (max_bytes as u64) < 52 + bs {
        return Err(SplitError::PlanInfeasible);
    }
    let max = max_bytes as u64;
    let ghost bsi = bs as int;
    let mut p = Planner::new(header.block_size, max_bytes);
    let mut k: usize = 0;
    proof {
        lemma_sum_blocks_prefix(chunks@, 0);
        assert(chunks@.take(0) =~= Seq::<ScannedChunk>::empty());
    }
    while k < chunks.len()
        invariant
            bs == header.block_size,
            bsi == bs,
            bs % 4 == 0,
            max == max_bytes,
            max >= 52 + bs,
            p.block_size == header.block_size,
            p.max_bytes == max_bytes,
            p.inv(),
            p.bounds(),
            sum_blocks(chunks@) == header.blocks,
            forall|i: int| 0 <= i < chunks@.len() ==> chunk_consistent(bsi, #[trigger] chunks@[i]),
            forall|i: int| 0 <= i < chunks@.len() ==> (#[trigger] chunks@[i]).offset + chunks@[i].size <= usize::MAX,
            k <= chunks@.len(),
            p.cur_blocks == sum_blocks(chunks@.take(k as int)),
            p.has_data || p.out@.len() == 0,
            forall|i: int| 0 <= i < k && (#[trigger] chunks@[i]).header.chunk_type != ChunkType::Raw
                ==> 52 + chunks@[i].size <= max,
            chunks_bytes(bsi, p.emitted@) == chunks_bytes(bsi, chunks@.take(k as int)),
        decreases chunks@.len() - k,
    {
        let c = chunks[k];
        assert(chunk_consistent(bsi, chunks@[k as int]));
        proof {
            lemma_sum_blocks_prefix(chunks@, k + 1);
            assert(chunks@.take(k + 1).drop_last() =~= chunks@.take(k as int));
            assert(chunks@.take(k + 1).last() == c);
        }
        if c.header.chunk_type == ChunkType::Raw && bs > 0 {
            {
                let mut r: u64 = c.header.chunk_size as u64;
                let mut o: usize = c.offset;
                proof {
                    lemma_push_bytes(bsi, chunks@.take(k as int), c);
                    assert(chunk_bytes(bsi, c) =~= source_run(o as int, r * bsi));
                    assert(r * bsi >= 0) by (nonlinear_arith)
                        requires r >= 0, bsi >= 0;
                }
                loop
                    invariant_except_break
                        p.cur_blocks + r == sum_blocks(chunks@.take(k + 1)),
                        o + r * bsi == c.offset + c.size,
                        chunks_bytes(bsi, p.emitted@) + source_run(o as int, r * bsi) == chunks_bytes(bsi, chunks@.take(k + 1)),
                        !p.has_data ==> p.out@.len() == 0 || p.last_close_used@ + 12 + (if r > 0 { bsi } else { 0int }) > max,
                    invariant
                        bs == header.block_size,
                        bsi == bs,
                        bs >= 4,
                        max == max_bytes,
                        max >= 52 + bs,
                        p.block_size == header.block_size,
                        p.max_bytes == max_bytes,
                        p.inv(),
                        p.bounds(),
                        c.offset + c.size <= usize::MAX,
                        sum_blocks(chunks@.take(k + 1)) <= header.blocks,
                        r * bsi >= 0,
                    ensures
                        p.has_data,
                        p.cur_blocks == sum_blocks(chunks@.take(k + 1)),
                        chunks_bytes(bsi, p.emitted@) == chunks_bytes(bsi, chunks@.take(k + 1)),
                    decreases 2 * r + (if p.has_data { 1int } else { 0int }),
                {
                    let room: u64 = if p.used + 12 <= max { max - p.used - 12 } else { 0 };
                    let fit: u64 = room / bs;
                    proof {
                        assert(fit * bsi <= room) by (nonlinear_arith)
                            requires fit as int == room as int / bsi, bsi > 0, room >= 0;
                        assert(!p.has_data ==> fit >= 1) by (nonlinear_arith)
                            requires fit as int == room as int / bsi, bsi > 0, !p.has_data ==> room >= bsi;
                    }
                    let ghost used0 = p.used as int;
                    let ghost r0 = r as int;
                    proof {
                        assert(p.used + 12 <= max ==> room < fit * bsi + bsi) by (nonlinear_arith)
                            requires fit as int == room as int / bsi, bsi > 0, room >= 0,
                                p.used + 12 <= max ==> room == max - p.used - 12;
                        assert(r > 0 ==> r * bsi >= bsi) by (nonlinear_arith)
                            requires bsi > 0;
                        assert(fit > 0 ==> fit * bsi >= bsi) by (nonlinear_arith)
                            requires bsi > 0;
                    }
                    if fit >= r && p.used + 12 <= max {
                        proof {
                            assert(r * bsi <= fit * bsi) by (nonlinear_arith)
                                requires r <= fit, bsi >= 0;
                        }
                        let piece = ScannedChunk {
                            header: ChunkHeader {
                                chunk_type: ChunkType::Raw,
                                chunk_size: r as u32,
                                total_size: (12 + r * bs) as u32,
                            },
                            offset: o,
                            size: (r * bs) as usize,
                        };
                        let ghost before = p.emitted@;
                        p.push_chunk(piece);
                        proof {
                            lemma_push_bytes(bsi, before, piece);
                            assert(chunk_bytes(bsi, piece) =~= source_run(o as int, r * bsi));
                        }
                        break;
                    }
                    if fit >= 1 && p.used + 12 <= max {
                        let piece = ScannedChunk {
                            header: ChunkHeader {
                                chunk_type: ChunkType::Raw,
                                chunk_size: fit as u32,
                                total_size: (12 + fit * bs) as u32,
                            },
                            offset: o,
                            size: (fit * bs) as usize,
                        };
                        proof {
                            assert(o + fit * bsi + (r - fit) * bsi == o + r * bsi) by (nonlinear_arith);
                            assert((r - fit) * bsi >= 0) by (nonlinear_arith)
                                requires r >= fit, bsi >= 0;
                            assert(fit * bsi >= 0) by (nonlinear_arith)
                                requires fit >= 0, bsi >= 0;
                            lemma_source_run_split(o as int, fit * bsi, (r - fit) * bsi);
                            assert(chunk_bytes(bsi, piece) =~= source_run(o as int, fit * bsi));
                        }
                        let ghost before = p.emitted@;
                        p.push_chunk(piece);
                        proof {
                            lemma_push_bytes(bsi, before, piece);
                        }
                        r = r - fit;
                        o = o + piece.size;
                    }
                    assert(p.used + 12 + (if r > 0 { bsi } else { 0int }) > max);
                    p.close();
                }
            }
        } else {
            if 52 + c.size as u64 > max {
                proof {
                    if c.header.chunk_type == ChunkType::Raw {
                        assert(bsi == 0);
                        assert(c.header.chunk_size * bsi == 0) by (nonlinear_arith)
                            requires bsi == 0;
                    }
                    assert(chunks@[k as int].header.chunk_type != ChunkType::Raw);
                }
                return Err(SplitError::PlanInfeasible);
            }
            proof {
                if c.header.chunk_type == ChunkType::Raw {
                    assert(c.header.chunk_size * bsi == 0) by (nonlinear_arith)
                        requires bsi == 0;
                }
            }
            if p.used + 12 + c.size as u64 > max {
                p.close();
            }
            let ghost before = p.emitted@;
            p.push_chunk(c);
            proof {
                lemma_push_bytes(bsi, before, c);
                lemma_push_bytes(bsi, chunks@.take(k as int), c);
            }
        }
        k = k + 1;
    }
    assert(chunks@.take(chunks@.len() as int) =~= chunks@);
    Ok(p.finish())
}

/// Blocks that fragment `i` adds beyond those its predecessors cover.
pub open spec fn new_blocks(frags: Seq<Split>, i: int) -> int {
    if i == 0 {
        frags[0].header.blocks as int
    } else {
        frags[i].header.blocks - frags[i - 1].header.blocks
    }
}

/// Blocks added by the first `n` fragments.
pub open spec fn sum_new_blocks(frags: Seq<Split>, n: int) -> int
    decreases n,
{
    if n <= 0 {
        0
    } else {
        sum_new_blocks(frags, n - 1) + new_blocks(frags, n - 1)
    }
}

/// The blocks that the fragments add up to those of the image, and the
/// leading skip of every fragment after the first covers exactly the blocks
/// that the fragments before it add.
pub proof fn lemma_fragment_blocks(frags: Seq<Split>, blocks: u32)
    requires
        frags.len() > 0,
        fragments_linked(frags),
        frags.last().header.blocks == blocks,
    ensures
        sum_new_blocks(frags, frags.len() as int) == blocks,
        forall|i: int| 0 < i < frags.len() ==> (#[trigger] frags[i]).chunks@[0].header.chunk_size == sum_new_blocks(frags, i),
{
    assert forall|n: int| 1 <= n <= frags.len() implies #[trigger] sum_new_blocks(frags, n) == frags[n - 1].header.blocks by {
        lemma_sum_new_blocks(frags, n);
    }
    assert forall|i: int| 0 < i < frags.len() implies (#[trigger] frags[i]).chunks@[0].header.chunk_size == sum_new_blocks(frags, i) by {
        lemma_sum_new_blocks(frags, i);
    }
}

proof fn lemma_sum_new_blocks(frags: Seq<Split>, n: int)
    requires
        1 <= n <= frags.len(),
    ensures
        sum_new_blocks(frags, n) == frags[n - 1].header.blocks,
    decreases n,
{
    if n > 1 {
        lemma_sum_new_blocks(frags, n - 1);
    } else {
        assert(sum_new_blocks(frags, 0) == 0);
    }
}

/// The target after the bytes `b` are written from its start: a skipped
/// byte keeps what the target held.
pub open spec fn flash_bytes(t: Seq<ByteSource>, b: Seq<ByteSource>) -> Seq<ByteSource> {
    Seq::new(t.len(), |j: int| if j < b.len() && b[j] is Source { b[j] } else { t[j] })
}

/// The target after the fragments are flashed to it in order.
pub open spec fn flash_all(t: Seq<ByteSource>, block_size: int, frags: Seq<Split>) -> Seq<ByteSource>
    decreases frags.len(),
{
    if frags.len() == 0 {
        t
    } else {
        flash_bytes(flash_all(t, block_size, frags.drop_last()), chunks_bytes(block_size, frags.last().chunks@))
    }
}

pub open spec fn zeros(n: int) -> Seq<ByteSource> {
    Seq::new(n as nat, |j: int| ByteSource::Zero)
}

proof fn lemma_chunks_bytes_len(block_size: int, cs: Seq<ScannedChunk>)
    requires
        block_size >= 0,
        forall|i: int| 0 <= i < cs.len() ==> chunk_consistent(block_size, #[trigger] cs[i]),
    ensures
        chunks_bytes(block_size, cs).len() == block_size * sum_blocks(cs),
    decreases cs.len(),
{
    if cs.len() > 0 {
        let init = cs.drop_last();
        assert forall|i: int| 0 <= i < init.len() implies chunk_consistent(block_size, #[trigger] init[i]) by {
            assert(init[i] == cs[i]);
        }
        lemma_chunks_bytes_len(block_size, init);
        let c = cs.last();
        assert(chunk_consistent(block_size, cs[cs.len() - 1]));
        assert(c.header.chunk_size * block_size >= 0) by (nonlinear_arith)
            requires block_size >= 0;
        assert(block_size * sum_blocks(cs) == block_size * sum_blocks(init) + c.header.chunk_size * block_size) by (nonlinear_arith)
            requires sum_blocks(cs) == sum_blocks(init) + c.header.chunk_size;
    }
}

proof fn lemma_chunks_bytes_concat(block_size: int, a: Seq<ScannedChunk>, b: Seq<ScannedChunk>)
    ensures
        chunks_bytes(block_size, a + b) == chunks_bytes(block_size, a) + chunks_bytes(block_size, b),
    decreases b.len(),
{
    if b.len() == 0 {
        assert(a + b =~= a);
        assert(chunks_bytes(block_size, a) + chunks_bytes(block_size, b) =~= chunks_bytes(block_size, a));
    } else {
        lemma_chunks_bytes_concat(block_size, a, b.drop_last());
        assert((a + b).drop_last() =~= a + b.drop_last());
        assert((a + b).last() == b.last());
        assert(chunks_bytes(block_size, a + b) =~= chunks_bytes(block_size, a) + chunks_bytes(block_size, b));
    }
}

proof fn lemma_sum_blocks_concat(a: Seq<ScannedChunk>, b: Seq<ScannedChunk>)
    ensures
        sum_blocks(a + b) == sum_blocks(a) + sum_blocks(b),
    decreases b.len(),
{
    if b.len() == 0 {
        assert(a + b =~= a);
    } else {
        lemma_sum_blocks_concat(a, b.drop_last());
        assert((a + b).drop_last() =~= a + b.drop_last());
        assert((a + b).last() == b.last());
    }
}

proof fn lemma_single(block_size: int, c: ScannedChunk)
    ensures
        chunks_bytes(block_size, seq![c]) == chunk_bytes(block_size, c),
        sum_blocks(seq![c]) == c.header.chunk_size,
{
    let e = Seq::<ScannedChunk>::empty();
    assert(seq![c].drop_last() =~= e);
    assert(chunks_bytes(block_size, e) == Seq::<ByteSource>::empty());
    assert(sum_blocks(e) == 0);
    assert(chunks_bytes(block_size, seq![c]) =~= chunk_bytes(block_size, c));
}

/// A fragment that opens with a skip over `lead` blocks: its blocks and its
/// bytes are those of the skip followed by those of its data.
proof fn lemma_fragment_with_lead(f: Split, lead: u32, block_size: u32, max_bytes: u32)
    requires
        fragment_ok(f, block_size, max_bytes),
        f.chunks@.len() > 0,
        f.chunks@[0] == leading_skip(lead),
    ensures
        f.header.blocks == lead + sum_blocks(f.chunks@.skip(1)),
        sum_blocks(f.chunks@.skip(1)) >= 0,
        chunks_bytes(block_size as int, f.chunks@) == zeros(block_size * lead) + chunks_bytes(block_size as int, f.chunks@.skip(1)),
        chunks_bytes(block_size as int, f.chunks@.skip(1)).len() == block_size * sum_blocks(f.chunks@.skip(1)),
{
    let bs = block_size as int;
    let first = f.chunks@[0];
    let data = f.chunks@.skip(1);
    assert(f.chunks@ =~= seq![first] + data);
    lemma_chunks_bytes_concat(bs, seq![first], data);
    lemma_sum_blocks_concat(seq![first], data);
    lemma_single(bs, first);
    assert(lead * bs == block_size * lead) by (nonlinear_arith)
        requires bs == block_size;
    assert(chunk_bytes(bs, first) =~= zeros(block_size * lead));
    lemma_sum_blocks_nonneg(data);
    assert forall|i: int| 0 <= i < data.len() implies chunk_consistent(bs, #[trigger] data[i]) by {
        assert(data[i] == f.chunks@[i + 1]);
    }
    lemma_chunks_bytes_len(bs, data);
}

proof fn lemma_flash_onto(a: Seq<ByteSource>, lead: int, dd: Seq<ByteSource>, l: int)
    requires
        a.len() == lead,
        0 <= lead,
        lead + dd.len() <= l,
    ensures
        flash_bytes(a + zeros(l - lead), zeros(lead) + dd) == a + dd + zeros(l - lead - dd.len()),
{
    assert(flash_bytes(a + zeros(l - lead), zeros(lead) + dd) =~= a + dd + zeros(l - lead - dd.len()));
}

proof fn lemma_all_data_take(frags: Seq<Split>, n: int)
    requires
        1 <= n <= frags.len(),
    ensures
        all_data_chunks(frags.take(n)) == all_data_chunks(frags.take(n - 1)) + data_chunks(frags[n - 1], n == 1),
{
    assert(frags.take(n).drop_last() =~= frags.take(n - 1));
    assert(frags.take(n).last() == frags[n - 1]);
}

/// After `n` fragments the target holds their data, then zeros.
#[verifier::spinoff_prover]
#[verifier::rlimit(80)]
proof fn lemma_flash_prefix(frags: Seq<Split>, block_size: u32, max_bytes: u32, total: int, n: int)
    requires
        1 <= n <= frags.len(),
        fragments_linked(frags),
        forall|i: int| 0 <= i < frags.len() ==> fragment_ok(#[trigger] frags[i], block_size, max_bytes),
        forall|i: int| 0 <= i < frags.len() ==> (#[trigger] frags[i]).header.blocks <= total,
    ensures
        chunks_bytes(block_size as int, all_data_chunks(frags.take(n))).len() == block_size * frags[n - 1].header.blocks,
        flash_all(zeros(block_size * total), block_size as int, frags.take(n))
            == chunks_bytes(block_size as int, all_data_chunks(frags.take(n)))
                + zeros(block_size * total - block_size * frags[n - 1].header.blocks),
    decreases n,
{
    let bs = block_size as int;
    let l = bs * total;
    let f = frags[n - 1];
    assert(fragment_ok(f, block_size, max_bytes));
    assert(f.header.blocks <= total);
    assert(bs * f.header.blocks <= bs * total) by (nonlinear_arith)
        requires f.header.blocks <= total, bs >= 0;
    lemma_all_data_take(frags, n);
    assert(frags.take(n).drop_last() =~= frags.take(n - 1));
    assert(frags.take(n).last() == f);
    if n == 1 {
        assert(frags.take(0) =~= Seq::<Split>::empty());
        assert(all_data_chunks(Seq::<Split>::empty()) == Seq::<ScannedChunk>::empty());
        assert(all_data_chunks(frags.take(1)) =~= f.chunks@);
        lemma_chunks_bytes_len(bs, f.chunks@);
        let d = chunks_bytes(bs, f.chunks@);
        lemma_flash_onto(Seq::empty(), 0, d, l);
        assert(Seq::<ByteSource>::empty() + zeros(l) =~= zeros(l));
        assert(zeros(0) + d =~= d);
        assert(Seq::<ByteSource>::empty() + d =~= d);
        assert(flash_all(zeros(l), bs, frags.take(0)) == zeros(l));
        assert(flash_all(zeros(l), bs, frags.take(1)) == flash_bytes(zeros(l), d));
        assert(d.len() == bs * f.header.blocks);
        assert(flash_bytes(zeros(l), d) == d + zeros(l - d.len()));
    } else {
        lemma_flash_prefix(frags, block_size, max_bytes, total, n - 1);
        let prev = frags[n - 2];
        assert(f.chunks@.len() > 0 && f.chunks@[0] == leading_skip(prev.header.blocks));
        lemma_fragment_with_lead(f, prev.header.blocks, block_size, max_bytes);
        let a = chunks_bytes(bs, all_data_chunks(frags.take(n - 1)));
        let data = f.chunks@.skip(1);
        let dd = chunks_bytes(bs, data);
        lemma_chunks_bytes_concat(bs, all_data_chunks(frags.take(n - 1)), data);
        assert(bs * f.header.blocks == bs * prev.header.blocks + bs * sum_blocks(data)) by (nonlinear_arith)
            requires f.header.blocks == prev.header.blocks + sum_blocks(data);
        lemma_flash_onto(a, bs * prev.header.blocks, dd, l);
        assert(data_chunks(f, false) == data);
        assert(chunks_bytes(bs, all_data_chunks(frags.take(n))) == a + dd);
        assert(flash_all(zeros(l), bs, frags.take(n)) == flash_bytes(flash_all(zeros(l), bs, frags.take(n - 1)), chunks_bytes(bs, f.chunks@)));
        assert(flash_all(zeros(l), bs, frags.take(n - 1)) == a + zeros(l - bs * prev.header.blocks));
        assert(chunks_bytes(bs, f.chunks@) == zeros(bs * prev.header.blocks) + dd);
    }
}

/// Flashing the fragments in order to a zeroed target of the image's size
/// leaves it holding what the source chunks expand to.
pub proof fn lemma_flash_fragments(frags: Seq<Split>, chunks: Seq<ScannedChunk>, block_size: u32, max_bytes: u32, blocks: u32)
    requires
        frags.len() > 0,
        frags.last().header.blocks == blocks,
        fragments_linked(frags),
        forall|i: int| 0 <= i < frags.len() ==> fragment_ok(#[trigger] frags[i], block_size, max_bytes),
        chunks_bytes(block_size as int, all_data_chunks(frags)) == chunks_bytes(block_size as int, chunks),
    ensures
        flash_all(zeros(block_size * blocks), block_size as int, frags) == chunks_bytes(block_size as int, chunks),
{
    lemma_fragment_blocks_bounded(frags, block_size, max_bytes, frags.len() - 1);
    assert forall|i: int| 0 <= i < frags.len() implies (#[trigger] frags[i]).header.blocks <= blocks by {
        lemma_fragment_blocks_bounded(frags, block_size, max_bytes, i);
    }
    lemma_flash_prefix(frags, block_size, max_bytes, blocks as int, frags.len() as int);
    assert(frags.take(frags.len() as int) =~= frags);
    let d = chunks_bytes(block_size as int, all_data_chunks(frags));
    assert(d + zeros(block_size * blocks - d.len()) =~= d);
}

/// Each fragment covers at least the blocks of those before it.
#[verifier::spinoff_prover]
#[verifier::rlimit(80)]
proof fn lemma_fragment_blocks_bounded(frags: Seq<Split>, block_size: u32, max_bytes: u32, i: int)
    requires
        0 <= i < frags.len(),
        fragments_linked(frags),
        forall|k: int| 0 <= k < frags.len() ==> fragment_ok(#[trigger] frags[k], block_size, max_bytes),
    ensures
        frags[i].header.blocks <= frags.last().header.blocks,
    decreases frags.len() - i,
{
    if i < frags.len() - 1 {
        lemma_fragment_blocks_bounded(frags, block_size, max_bytes, i + 1);
        let f = frags[i + 1];
        assert(fragment_ok(f, block_size, max_bytes));
        assert(f.chunks@.len() > 0 && f.chunks@[0] == leading_skip(frags[i].header.blocks));
        lemma_fragment_with_lead(f, frags[i].header.blocks, block_size, max_bytes);
    }
}

/// The byte that a byte source stands for in the image `img`.
pub open spec fn source_byte(img: Seq<u8>, b: ByteSource) -> u8 {
    match b {
        ByteSource::Source(o) => img[o as int],
        ByteSource::Zero => 0u8,
    }
}

/// The bytes that byte sources stand for in the image `img`.
pub open spec fn source_bytes(img: Seq<u8>, bs: Seq<ByteSource>) -> Seq<u8> {
    Seq::new(bs.len(), |j: int| source_byte(img, bs[j]))
}

/// The byte sources of well-formed chunks stand for exactly what they
/// expand to.
pub proof fn lemma_chunks_bytes_expand(img: Seq<u8>, block_size: int, cs: Seq<ScannedChunk>)
    requires
        block_size >= 0,
        img.len() <= usize::MAX,
        forall|i: int| 0 <= i < cs.len() ==> chunk_well_formed(img, block_size, #[trigger] cs[i]),
    ensures
        source_bytes(img, chunks_bytes(block_size, cs)) == expanded(img, block_size, cs),
    decreases cs.len(),
{
    if cs.len() > 0 {
        let init = cs.drop_last();
        assert forall|i: int| 0 <= i < init.len() implies chunk_well_formed(img, block_size, #[trigger] init[i]) by {
            assert(init[i] == cs[i]);
        }
        lemma_chunks_bytes_expand(img, block_size, init);
        let c = cs.last();
        assert(chunk_well_formed(img, block_size, cs[cs.len() - 1]));
        let sb = source_bytes(img, chunk_bytes(block_size, c));
        let co = chunk_output(img, block_size, c);
        assert(sb.len() == co.len());
        assert forall|j: int| 0 <= j < sb.len() implies sb[j] == co[j] by {
            if c.header.chunk_type == ChunkType::Raw {
                assert(((c.offset + j) as usize) as int == c.offset + j);
            } else if c.header.chunk_type == ChunkType::Fill {
                assert(((c.offset + j % 4) as usize) as int == c.offset + j % 4);
            }
        }
        assert(sb =~= co);
        assert(source_bytes(img, chunks_bytes(block_size, cs)) =~= source_bytes(img, chunks_bytes(block_size, init))
            + source_bytes(img, chunk_bytes(block_size, c)));
    }
}

/// Flashing the fragments of a split, in order, to a zeroed target of the
/// image's expanded size leaves exactly the expanded image there.
pub proof fn lemma_split_rebuilds_image(
    img: Seq<u8>,
    header: FileHeader,
    chunks: Seq<ScannedChunk>,
    frags: Seq<Split>,
    max_bytes: u32,
)
    requires
        img.len() <= usize::MAX,
        image_well_formed(img, header, chunks),
        frags.len() > 0,
        frags.last().header.blocks == header.blocks,
        fragments_linked(frags),
        forall|i: int| 0 <= i < frags.len() ==> fragment_ok(#[trigger] frags[i], header.block_size, max_bytes),
        chunks_bytes(header.block_size as int, all_data_chunks(frags)) == chunks_bytes(header.block_size as int, chunks),
    ensures
        source_bytes(img, flash_all(zeros(header.block_size * header.blocks), header.block_size as int, frags))
            == expanded(img, header.block_size as int, chunks),
{
    lemma_flash_fragments(frags, chunks, header.block_size, max_bytes, header.blocks);
    lemma_chunks_bytes_expand(img, header.block_size as int, chunks);
}

} // verus!
