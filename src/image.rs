//! Scanning a whole sparse image into chunk records, and expanding it.

use vstd::prelude::*;
use vstd::slice::slice_subrange;
use crate::sparse::{
    is_chunk_header_bytes, is_file_header_bytes, lemma_chunk_header_round_trip,
    lemma_file_header_round_trip, parse_chunk_header, parse_file_header, spec_data_size, valid_chunk_header,
    valid_file_header, ChunkHeader, ChunkType, FileHeader, ParseError, CHUNK_HEADER_BYTES_LEN,
    FILE_HEADER_BYTES_LEN,
};

verus! {

/// A chunk header together with where its payload lies in the source.
#[derive(Clone, Copy, Debug, PartialEq, Eq, Structural)]
pub struct ScannedChunk {
    pub header: ChunkHeader,
    /// Byte offset of the payload in the source image.
    pub offset: usize,
    /// Payload length in bytes.
    pub size: usize,
}

/// A decoded file header and the chunks that follow it.
#[derive(Clone, Debug)]
pub struct SparseImage {
    pub header: FileHeader,
    pub chunks: Vec<ScannedChunk>,
}

/// Output blocks covered by a sequence of chunks.
pub open spec fn sum_blocks(chunks: Seq<ScannedChunk>) -> int
    decreases chunks.len(),
{
    if chunks.len() == 0 {
        0
    } else {
        sum_blocks(chunks.drop_last()) + chunks.last().header.chunk_size
    }
}

/// A chunk whose header and payload fit together and lie inside `img`.
pub open spec fn chunk_well_formed(img: Seq<u8>, block_size: int, c: ScannedChunk) -> bool {
    &&& valid_chunk_header(c.header)
    &&& c.size == spec_data_size(c.header)
    &&& c.offset + c.size <= img.len()
    &&& c.header.chunk_type == ChunkType::Raw ==> c.size == c.header.chunk_size * block_size
    &&& c.header.chunk_type == ChunkType::Crc32 ==> c.header.chunk_size == 0
}

/// A scanned image whose chunks are well formed and cover exactly the
/// blocks that the file header declares.
pub open spec fn image_well_formed(img: Seq<u8>, s: FileHeader, chunks: Seq<ScannedChunk>) -> bool {
    &&& valid_file_header(s)
    &&& chunks.len() == s.chunks
    &&& forall|i: int| 0 <= i < chunks.len() ==> chunk_well_formed(img, s.block_size as int, #[trigger] chunks[i])
    &&& sum_blocks(chunks) == s.blocks
}

/// The bytes one chunk expands to. A skipped region reads as zeros.
pub open spec fn chunk_output(img: Seq<u8>, block_size: int, c: ScannedChunk) -> Seq<u8> {
    match c.header.chunk_type {
        ChunkType::Raw => img.subrange(c.offset as int, c.offset + c.size),
        ChunkType::Fill => Seq::new(
            (c.header.chunk_size * block_size) as nat,
            |i: int| img[c.offset + i % 4],
        ),
        ChunkType::DontCare => Seq::new((c.header.chunk_size * block_size) as nat, |i: int| 0u8),
        ChunkType::Crc32 => Seq::empty(),
    }
}

/// The expanded image: the outputs of the chunks, in order.
pub open spec fn expanded(img: Seq<u8>, block_size: int, chunks: Seq<ScannedChunk>) -> Seq<u8>
    decreases chunks.len(),
{
    if chunks.len() == 0 {
        Seq::empty()
    } else {
        expanded(img, block_size, chunks.drop_last()) + chunk_output(img, block_size, chunks.last())
    }
}

/// A prefix of the chunks covers no more blocks than all of them.
pub proof fn lemma_sum_blocks_prefix(chunks: Seq<ScannedChunk>, k: int)
    requires
        0 <= k <= chunks.len(),
    ensures
        0 <= sum_blocks(chunks.take(k)) <= sum_blocks(chunks),
    decreases chunks.len(),
{
    if k == chunks.len() {
        assert(chunks.take(k) =~= chunks);
        lemma_sum_blocks_nonneg(chunks);
    } else {
        lemma_sum_blocks_prefix(chunks.drop_last(), k);
        assert(chunks.drop_last().take(k) =~= chunks.take(k));
    }
}

/// Chunks never cover a negative number of blocks.
pub proof fn lemma_sum_blocks_nonneg(chunks: Seq<ScannedChunk>)
    ensures
        sum_blocks(chunks) >= 0,
    decreases chunks.len(),
{
    if chunks.len() > 0 {
        lemma_sum_blocks_nonneg(chunks.drop_last());
    }
}

/// The length of a chunk's output: its blocks times the block size.
pub proof fn lemma_chunk_output_len(img: Seq<u8>, block_size: int, c: ScannedChunk)
    requires
        block_size >= 0,
        chunk_well_formed(img, block_size, c),
    ensures
        chunk_output(img, block_size, c).len() == c.header.chunk_size * block_size,
{
    assert(c.header.chunk_size * block_size >= 0) by (nonlinear_arith)
        requires block_size >= 0;
}

/// The expanded image holds `block_size` bytes for each block the chunks cover.
pub proof fn lemma_expanded_len(img: Seq<u8>, block_size: int, chunks: Seq<ScannedChunk>)
    requires
        block_size >= 0,
        forall|i: int| 0 <= i < chunks.len() ==> chunk_well_formed(img, block_size, #[trigger] chunks[i]),
    ensures
        expanded(img, block_size, chunks).len() == block_size * sum_blocks(chunks),
    decreases chunks.len(),
{
    if chunks.len() > 0 {
        let init = chunks.drop_last();
        assert forall|i: int| 0 <= i < init.len() implies chunk_well_formed(img, block_size, #[trigger] init[i]) by {
            assert(init[i] == chunks[i]);
        }
        lemma_expanded_len(img, block_size, init);
        lemma_chunk_output_len(img, block_size, chunks.last());
        assert(block_size * sum_blocks(chunks) == block_size * sum_blocks(init) + chunks.last().header.chunk_size * block_size) by (nonlinear_arith)
            requires sum_blocks(chunks) == sum_blocks(init) + chunks.last().header.chunk_size;
    }
}

/// Where the chunk after `chunks` starts.
pub open spec fn next_chunk_pos(chunks: Seq<ScannedChunk>) -> int {
    if chunks.len() == 0 {
        FILE_HEADER_BYTES_LEN as int
    } else {
        chunks.last().offset + chunks.last().size
    }
}

/// Reading one chunk whose header starts at `pos`.
pub open spec fn scan_chunk(img: Seq<u8>, block_size: int, pos: int) -> Result<ScannedChunk, ParseError> {
    if img.len() - pos < CHUNK_HEADER_BYTES_LEN {
        Err(ParseError::Truncated)
    } else {
        match parse_chunk_header(img.subrange(pos, pos + CHUNK_HEADER_BYTES_LEN)) {
            Err(e) => Err(e),
            Ok(c) => {
                let offset = pos + CHUNK_HEADER_BYTES_LEN;
                let size = spec_data_size(c);
                if img.len() - offset < size {
                    Err(ParseError::Truncated)
                } else if c.chunk_type == ChunkType::Raw && size != c.chunk_size * block_size {
                    Err(ParseError::InvalidChunkSize)
                } else if c.chunk_type == ChunkType::Crc32 && c.chunk_size != 0 {
                    Err(ParseError::InvalidChunkSize)
                } else {
                    Ok(ScannedChunk { header: c, offset: offset as usize, size: size as usize })
                }
            },
        }
    }
}

/// Reading the first `n` chunks that follow the file header `h`.
pub open spec fn scan_chunks(img: Seq<u8>, h: FileHeader, n: nat) -> Result<Seq<ScannedChunk>, ParseError>
    decreases n,
{
    if n == 0 {
        Ok(Seq::empty())
    } else {
        match scan_chunks(img, h, (n - 1) as nat) {
            Err(e) => Err(e),
            Ok(prev) => match scan_chunk(img, h.block_size as int, next_chunk_pos(prev)) {
                Err(e) => Err(e),
                Ok(c) => if sum_blocks(prev) + c.header.chunk_size > h.blocks {
                    Err(ParseError::BlockCountMismatch)
                } else {
                    Ok(prev.push(c))
                },
            },
        }
    }
}

/// Reading a whole image: its header, then as many chunks as it declares,
/// which must cover exactly the declared blocks.
pub open spec fn spec_scan(img: Seq<u8>) -> Result<(FileHeader, Seq<ScannedChunk>), ParseError> {
    match parse_file_header(img) {
        Err(e) => Err(e),
        Ok(h) => match scan_chunks(img, h, h.chunks as nat) {
            Err(e) => Err(e),
            Ok(cs) => if sum_blocks(cs) != h.blocks {
                Err(ParseError::BlockCountMismatch)
            } else {
                Ok((h, cs))
            },
        },
    }
}

proof fn lemma_scan_chunks_err(img: Seq<u8>, h: FileHeader, m: nat, n: nat)
    requires
        m <= n,
        scan_chunks(img, h, m) is Err,
    ensures
        scan_chunks(img, h, n) == scan_chunks(img, h, m),
    decreases n,
{
    if m < n {
        lemma_scan_chunks_err(img, h, m, (n - 1) as nat);
    }
}

/// Reads the file header and every chunk header of `img`, checking that each
/// payload lies inside `img`, that each payload length fits its type and the
/// block size, and that the chunks cover exactly the declared blocks.
pub fn scan(img: &[u8]) -> (r: Result<SparseImage, ParseError>)
    ensures
        r is Ok <==> spec_scan(img@) is Ok,
        r is Ok ==> spec_scan(img@) == Ok::<(FileHeader, Seq<ScannedChunk>), ParseError>((r->Ok_0.header, r->Ok_0.chunks@)),
        r is Err ==> spec_scan(img@) == Err::<(FileHeader, Seq<ScannedChunk>), ParseError>(r->Err_0),
        r is Ok ==> image_well_formed(img@, r->Ok_0.header, r->Ok_0.chunks@),
{
    let header = match FileHeader::from_bytes(img) {
        Ok(h) => h,
        Err(e) => return Err(e),
    };
    let n = img.len();
    let mut pos: usize = FILE_HEADER_BYTES_LEN;
    let mut chunks: Vec<ScannedChunk> = Vec::new();
    let mut covered: u64 = 0;
    let mut k: u32 = 0;
    while k < header.chunks
        invariant
            n == img@.len(),
            parse_file_header(img@) == Ok::<FileHeader, ParseError>(header),
            k <= header.chunks,
            chunks@.len() == k,
            scan_chunks(img@, header, k as nat) == Ok::<Seq<ScannedChunk>, ParseError>(chunks@),
            pos == next_chunk_pos(chunks@),
            pos <= n,
            covered == sum_blocks(chunks@),
            covered <= header.blocks,
            forall|i: int| 0 <= i < chunks@.len() ==> chunk_well_formed(img@, header.block_size as int, #[trigger] chunks@[i]),
        decreases header.chunks - k,
    {
        let ghost kn = (k + 1) as nat;
        if n - pos < CHUNK_HEADER_BYTES_LEN {
            proof { lemma_scan_chunks_err(img@, header, kn, header.chunks as nat); }
            return Err(ParseError::Truncated);
        }
        let hdr_bytes = slice_subrange(img, pos, pos + CHUNK_HEADER_BYTES_LEN);
        let c = match ChunkHeader::from_bytes(hdr_bytes) {
            Ok(c) => c,
            Err(e) => {
                proof { lemma_scan_chunks_err(img@, header, kn, header.chunks as nat); }
                return Err(e);
            },
        };
        let offset = pos + CHUNK_HEADER_BYTES_LEN;
        let size = c.data_size() as usize;
        if n - offset < size {
            proof { lemma_scan_chunks_err(img@, header, kn, header.chunks as nat); }
            return Err(ParseError::Truncated);
        }
        match c.chunk_type {
            ChunkType::Raw => {
                proof {
                    let (a, b) = (c.chunk_size as int, header.block_size as int);
                    assert(a * b <= 0xffff_ffff * 0xffff_ffff) by (nonlinear_arith)
                        requires 0 <= a <= 0xffff_ffff, 0 <= b <= 0xffff_ffff;
                }
                if c.chunk_size as u64 * header.block_size as u64 != size as u64 {
                    proof { lemma_scan_chunks_err(img@, header, kn, header.chunks as nat); }
                    return Err(ParseError::InvalidChunkSize);
                }
            },
            ChunkType::Crc32 => {
                if c.chunk_size != 0 {
                    proof { lemma_scan_chunks_err(img@, header, kn, header.chunks as nat); }
                    return Err(ParseError::InvalidChunkSize);
                }
            },
            _ => {},
        }
        if c.chunk_size as u64 > header.blocks as u64 - covered {
            proof { lemma_scan_chunks_err(img@, header, kn, header.chunks as nat); }
            return Err(ParseError::BlockCountMismatch);
        }
        let sc = ScannedChunk { header: c, offset, size };
        let ghost old_chunks = chunks@;
        chunks.push(sc);
        assert(chunks@.drop_last() =~= old_chunks);
        assert(chunks@ == old_chunks.push(sc));
        covered = covered + c.chunk_size as u64;
        pos = offset + size;
        k = k + 1;
    }
    if covered != header.blocks as u64 {
        return Err(ParseError::BlockCountMismatch);
    }
    Ok(SparseImage { header, chunks })
}

/// Writes the expanded image: raw payloads copied, fill patterns repeated,
/// skipped regions as zeros, checksum chunks ignored.
pub fn expand(img: &[u8], image: &SparseImage) -> (r: Vec<u8>)
    requires
        image_well_formed(img@, image.header, image.chunks@),
        image.header.block_size * image.header.blocks <= usize::MAX,
    ensures
        r@ == expanded(img@, image.header.block_size as int, image.chunks@),
        r@.len() == image.header.block_size * image.header.blocks,
{
    let bs = image.header.block_size as usize;
    let ghost bsi = bs as int;
    let ghost chunks = image.chunks@;
    let n = img.len();
    let mut out: Vec<u8> = Vec::new();
    let mut k: usize = 0;
    while k < image.chunks.len()
        invariant
            bs == image.header.block_size,
            bsi == bs,
            n == img@.len(),
            chunks == image.chunks@,
            image_well_formed(img@, image.header, chunks),
            image.header.block_size * image.header.blocks <= usize::MAX,
            k <= chunks.len(),
            out@ == expanded(img@, bsi, chunks.take(k as int)),
            out@.len() == bsi * sum_blocks(chunks.take(k as int)),
        decreases chunks.len() - k,
    {
        let c = image.chunks[k];
        assert(chunk_well_formed(img@, bsi, chunks[k as int]));
        assert(chunks.take(k + 1).drop_last() =~= chunks.take(k as int));
        proof {
            lemma_sum_blocks_prefix(chunks, k + 1);
            let s = sum_blocks(chunks.take(k + 1));
            assert(bsi * s <= bsi * sum_blocks(chunks)) by (nonlinear_arith)
                requires s <= sum_blocks(chunks), bsi >= 0;
            assert(bsi * s == bsi * sum_blocks(chunks.take(k as int)) + c.header.chunk_size * bsi) by (nonlinear_arith)
                requires s == sum_blocks(chunks.take(k as int)) + c.header.chunk_size;
            assert(c.header.chunk_size * bsi >= 0) by (nonlinear_arith)
                requires bsi >= 0;
        }
        let ghost before = out@;
        let out_size = c.header.chunk_size as usize * bs;
        match c.header.chunk_type {
            ChunkType::Raw => {
                let mut j: usize = 0;
                while j < c.size
                    invariant
                        n == img@.len(),
                        c.offset + c.size <= img@.len(),
                        j <= c.size,
                        out@ == before + img@.subrange(c.offset as int, c.offset + j),
                    decreases c.size - j,
                {
                    out.push(img[c.offset + j]);
                    assert(img@.subrange(c.offset as int, c.offset + j + 1) =~= img@.subrange(c.offset as int, c.offset + j).push(img@[c.offset + j]));
                    j = j + 1;
                }
            },
            ChunkType::Fill => {
                let mut j: usize = 0;
                while j < out_size
                    invariant
                        n == img@.len(),
                        c.offset + 4 <= img@.len(),
                        j <= out_size,
                        out@ == before + Seq::new(j as nat, |i: int| img@[c.offset + i % 4]),
                    decreases out_size - j,
                {
                    out.push(img[c.offset + j % 4]);
                    assert(Seq::new((j + 1) as nat, |i: int| img@[c.offset + i % 4]) =~= Seq::new(j as nat, |i: int| img@[c.offset + i % 4]).push(img@[c.offset + j % 4]));
                    j = j + 1;
                }
            },
            ChunkType::DontCare => {
                let mut j: usize = 0;
                while j < out_size
                    invariant
                        j <= out_size,
                        out@ == before + Seq::new(j as nat, |i: int| 0u8),
                    decreases out_size - j,
                {
                    out.push(0);
                    assert(Seq::new((j + 1) as nat, |i: int| 0u8) =~= Seq::new(j as nat, |i: int| 0u8).push(0u8));
                    j = j + 1;
                }
            },
            ChunkType::Crc32 => {},
        }
        assert(out@ =~= expanded(img@, bsi, chunks.take(k + 1)));
        proof { lemma_chunk_output_len(img@, bsi, c); }
        k = k + 1;
    }
    assert(chunks.take(chunks.len() as int) =~= chunks);
    out
}

/// The header of an image that holds `len` bytes as one raw chunk.
pub open spec fn raw_file_header(block_size: u32, len: int) -> FileHeader {
    FileHeader { block_size, blocks: (len / block_size as int) as u32, chunks: 1, checksum: 0 }
}

/// The one raw chunk of such an image.
pub open spec fn raw_chunk(block_size: u32, len: int) -> ScannedChunk {
    ScannedChunk {
        header: ChunkHeader {
            chunk_type: ChunkType::Raw,
            chunk_size: (len / block_size as int) as u32,
            total_size: (len + CHUNK_HEADER_BYTES_LEN) as u32,
        },
        offset: (FILE_HEADER_BYTES_LEN + CHUNK_HEADER_BYTES_LEN) as usize,
        size: len as usize,
    }
}

/// `enc` is the sparse image that holds `d` as one raw chunk.
pub open spec fn is_raw_encoding(enc: Seq<u8>, block_size: u32, d: Seq<u8>) -> bool {
    &&& enc.len() == FILE_HEADER_BYTES_LEN + CHUNK_HEADER_BYTES_LEN + d.len()
    &&& is_file_header_bytes(enc.subrange(0, 28), raw_file_header(block_size, d.len() as int))
    &&& is_chunk_header_bytes(enc.subrange(28, 40), raw_chunk(block_size, d.len() as int).header)
    &&& enc.subrange(40, enc.len() as int) == d
}

/// Data that fills whole blocks and fits one raw chunk.
pub open spec fn raw_encodable(block_size: u32, d: Seq<u8>) -> bool {
    &&& block_size > 0
    &&& block_size % 4 == 0
    &&& (d.len() as int) % (block_size as int) == 0
    &&& d.len() + CHUNK_HEADER_BYTES_LEN <= u32::MAX
}

/// Decoding the raw encoding of `d` gives `d` back.
pub proof fn lemma_raw_encoding_decodes(enc: Seq<u8>, block_size: u32, d: Seq<u8>)
    requires
        raw_encodable(block_size, d),
        is_raw_encoding(enc, block_size, d),
    ensures
        spec_scan(enc) == Ok::<(FileHeader, Seq<ScannedChunk>), ParseError>(
            (raw_file_header(block_size, d.len() as int), seq![raw_chunk(block_size, d.len() as int)]),
        ),
        expanded(enc, block_size as int, seq![raw_chunk(block_size, d.len() as int)]) == d,
{
    let h = raw_file_header(block_size, d.len() as int);
    let c = raw_chunk(block_size, d.len() as int);
    let (len, bs) = (d.len() as int, block_size as int);
    assert(len / bs * bs == len) by (nonlinear_arith)
        requires bs > 0, len % bs == 0;
    assert(len / bs <= len) by (nonlinear_arith)
        requires bs > 0, len >= 0;
    lemma_file_header_round_trip(h, enc.subrange(0, 28));
    assert(parse_file_header(enc) == parse_file_header(enc.subrange(0, 28)));
    lemma_chunk_header_round_trip(c.header, enc.subrange(28, 40));
    let empty = Seq::<ScannedChunk>::empty();
    assert(scan_chunks(enc, h, 0) == Ok::<Seq<ScannedChunk>, ParseError>(empty));
    assert(scan_chunk(enc, bs, 28) == Ok::<ScannedChunk, ParseError>(c));
    assert(sum_blocks(empty) == 0);
    assert(empty.push(c) =~= seq![c]);
    assert(seq![c].drop_last() =~= empty);
    assert(scan_chunks(enc, h, 1) == Ok::<Seq<ScannedChunk>, ParseError>(seq![c]));
    assert(expanded(enc, bs, empty) == Seq::<u8>::empty());
    assert(expanded(enc, bs, seq![c]) =~= d);
}

/// An expanded image decodes back from its raw encoding, and holds
/// `block_size` bytes for each declared block.
pub proof fn lemma_expand_round_trip(img: Seq<u8>, enc: Seq<u8>)
    requires
        spec_scan(img) is Ok,
        raw_encodable(spec_scan(img)->Ok_0.0.block_size, expanded(img, spec_scan(img)->Ok_0.0.block_size as int, spec_scan(img)->Ok_0.1)),
        is_raw_encoding(enc, spec_scan(img)->Ok_0.0.block_size, expanded(img, spec_scan(img)->Ok_0.0.block_size as int, spec_scan(img)->Ok_0.1)),
    ensures
        ({
            let (h, cs) = spec_scan(img)->Ok_0;
            let d = expanded(img, h.block_size as int, cs);
            &&& d.len() == h.block_size * h.blocks
            &&& spec_scan(enc) is Ok
            &&& expanded(enc, h.block_size as int, spec_scan(enc)->Ok_0.1) == d
        }),
{
    let (h, cs) = spec_scan(img)->Ok_0;
    let d = expanded(img, h.block_size as int, cs);
    lemma_scan_well_formed(img);
    lemma_expanded_len(img, h.block_size as int, cs);
    lemma_raw_encoding_decodes(enc, h.block_size, d);
}

/// What reading an image accepts is well formed.
pub proof fn lemma_scan_well_formed(img: Seq<u8>)
    requires
        spec_scan(img) is Ok,
    ensures
        image_well_formed(img, spec_scan(img)->Ok_0.0, spec_scan(img)->Ok_0.1),
{
    let h = spec_scan(img)->Ok_0.0;
    lemma_scan_chunks_well_formed(img, h, h.chunks as nat);
}

proof fn lemma_scan_chunks_well_formed(img: Seq<u8>, h: FileHeader, n: nat)
    requires
        parse_file_header(img) == Ok::<FileHeader, ParseError>(h),
        scan_chunks(img, h, n) is Ok,
    ensures
        scan_chunks(img, h, n)->Ok_0.len() == n,
        forall|i: int| 0 <= i < n ==> chunk_well_formed(img, h.block_size as int, #[trigger] scan_chunks(img, h, n)->Ok_0[i]),
    decreases n,
{
    if n > 0 {
        lemma_scan_chunks_well_formed(img, h, (n - 1) as nat);
        let prev = scan_chunks(img, h, (n - 1) as nat)->Ok_0;
        let all = scan_chunks(img, h, n)->Ok_0;
        assert forall|i: int| 0 <= i < n implies chunk_well_formed(img, h.block_size as int, #[trigger] all[i]) by {
            if i < n - 1 {
                assert(all[i] == prev[i]);
            }
        }
    }
}

/// Wraps expanded data as a sparse image of one raw chunk.
pub fn encode_raw(block_size: u32, data: &[u8]) -> (r: Vec<u8>)
    requires
        raw_encodable(block_size, data@),
    ensures
        is_raw_encoding(r@, block_size, data@),
{
    let blocks = (data.len() / block_size as usize) as u32;
    let header = FileHeader { block_size, blocks, chunks: 1, checksum: 0 };
    let chunk = ChunkHeader {
        chunk_type: ChunkType::Raw,
        chunk_size: blocks,
        total_size: (data.len() + CHUNK_HEADER_BYTES_LEN) as u32,
    };
    let hb = header.to_bytes();
    let cb = chunk.to_bytes();
    let mut out: Vec<u8> = Vec::new();
    let mut i: usize = 0;
    while i < hb.len()
        invariant
            i <= hb@.len(),
            out@ == hb@.take(i as int),
        decreases hb@.len() - i,
    {
        out.push(hb[i]);
        assert(hb@.take(i + 1) =~= hb@.take(i as int).push(hb@[i as int]));
        i = i + 1;
    }
    assert(hb@.take(28) =~= hb@);
    let mut i: usize = 0;
    while i < cb.len()
        invariant
            i <= cb@.len(),
            out@ == hb@ + cb@.take(i as int),
        decreases cb@.len() - i,
    {
        out.push(cb[i]);
        assert(cb@.take(i + 1) =~= cb@.take(i as int).push(cb@[i as int]));
        i = i + 1;
    }
    assert(cb@.take(12) =~= cb@);
    let mut i: usize = 0;
    while i < data.len()
        invariant
            i <= data@.len(),
            out@ == hb@ + cb@ + data@.take(i as int),
        decreases data@.len() - i,
    {
        out.push(data[i]);
        assert(data@.take(i + 1) =~= data@.take(i as int).push(data@[i as int]));
        i = i + 1;
    }
    assert(data@.take(data@.len() as int) =~= data@);
    assert(out@.subrange(0, 28) =~= hb@);
    assert(out@.subrange(28, 40) =~= cb@);
    assert(out@.subrange(40, out@.len() as int) =~= data@);
    out
}

} // verus!
