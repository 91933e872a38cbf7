//! Binary layout of the Android sparse image file and chunk headers.

use vstd::prelude::*;

verus! {

pub const FILE_HEADER_BYTES_LEN: usize = 28;
pub const CHUNK_HEADER_BYTES_LEN: usize = 12;
pub const SPARSE_MAGIC: u32 = 0xed26ff3a;
pub const MAJOR_VERSION: u16 = 1;
pub const MINOR_VERSION: u16 = 0;
pub const CHUNK_TYPE_RAW: u16 = 0xcac1;
pub const CHUNK_TYPE_FILL: u16 = 0xcac2;
pub const CHUNK_TYPE_DONT_CARE: u16 = 0xcac3;
pub const CHUNK_TYPE_CRC32: u16 = 0xcac4;

/// Little-endian 16-bit value stored at `o`.
pub open spec fn le16(b: Seq<u8>, o: int) -> int {
    b[o] as int + 256 * (b[o + 1] as int)
}

/// Little-endian 32-bit value stored at `o`.
pub open spec fn le32(b: Seq<u8>, o: int) -> int {
    le16(b, o) + 65536 * le16(b, o + 2)
}

/// Structural problems found while decoding sparse image data.
#[derive(Clone, Copy, Debug, PartialEq, Eq, Structural)]
pub enum ParseError {
    /// Fewer bytes than the structure needs.
    Truncated,
    UnknownMagic,
    UnknownMajorVersion,
    UnexpectedFileHeaderSize,
    UnexpectedChunkHeaderSize,
    InvalidBlockSize,
    UnknownChunkType,
    /// A chunk's on-wire size disagrees with what its type requires.
    InvalidChunkSize,
    /// The chunks do not add up to the blocks the file header declares.
    BlockCountMismatch,
}

#[derive(Clone, Copy, Debug, PartialEq, Eq, Structural)]
pub enum ChunkType {
    Raw,
    Fill,
    DontCare,
    Crc32,
}

/// The sparse image preamble, without the fields whose values are fixed.
#[derive(Clone, Copy, Debug, PartialEq, Eq, Structural)]
pub struct FileHeader {
    pub block_size: u32,
    pub blocks: u32,
    pub chunks: u32,
    pub checksum: u32,
}

#[derive(Clone, Copy, Debug, PartialEq, Eq, Structural)]
pub struct ChunkHeader {
    pub chunk_type: ChunkType,
    /// Output blocks covered by the chunk.
    pub chunk_size: u32,
    /// Bytes on the wire, header included.
    pub total_size: u32,
}

pub open spec fn chunk_type_code(t: ChunkType) -> int {
    match t {
        ChunkType::Raw => CHUNK_TYPE_RAW as int,
        ChunkType::Fill => CHUNK_TYPE_FILL as int,
        ChunkType::DontCare => CHUNK_TYPE_DONT_CARE as int,
        ChunkType::Crc32 => CHUNK_TYPE_CRC32 as int,
    }
}

pub open spec fn chunk_type_of(code: int) -> Option<ChunkType> {
    if code == CHUNK_TYPE_RAW {
        Some(ChunkType::Raw)
    } else if code == CHUNK_TYPE_FILL {
        Some(ChunkType::Fill)
    } else if code == CHUNK_TYPE_DONT_CARE {
        Some(ChunkType::DontCare)
    } else if code == CHUNK_TYPE_CRC32 {
        Some(ChunkType::Crc32)
    } else {
        None
    }
}

/// A file header that encodes and decodes without loss.
pub open spec fn valid_file_header(h: FileHeader) -> bool {
    h.block_size % 4 == 0
}

/// Payload bytes that follow the chunk header on the wire.
pub open spec fn spec_data_size(c: ChunkHeader) -> int {
    c.total_size - CHUNK_HEADER_BYTES_LEN
}

/// The payload size that a chunk's type fixes on its own; a raw chunk's
/// payload depends on the block size and is checked against the file header.
pub open spec fn valid_chunk_header(c: ChunkHeader) -> bool {
    c.total_size >= CHUNK_HEADER_BYTES_LEN && match c.chunk_type {
        ChunkType::Raw => true,
        ChunkType::Fill => spec_data_size(c) == 4,
        ChunkType::DontCare => spec_data_size(c) == 0,
        ChunkType::Crc32 => spec_data_size(c) == 4,
    }
}

/// What decoding the first 28 bytes of `b` gives.
pub open spec fn parse_file_header(b: Seq<u8>) -> Result<FileHeader, ParseError> {
    if b.len() < FILE_HEADER_BYTES_LEN {
        Err(ParseError::Truncated)
    } else if le32(b, 0) != SPARSE_MAGIC {
        Err(ParseError::UnknownMagic)
    } else if le16(b, 4) != MAJOR_VERSION {
        Err(ParseError::UnknownMajorVersion)
    } else if le16(b, 8) != FILE_HEADER_BYTES_LEN {
        Err(ParseError::UnexpectedFileHeaderSize)
    } else if le16(b, 10) != CHUNK_HEADER_BYTES_LEN {
        Err(ParseError::UnexpectedChunkHeaderSize)
    } else if le32(b, 12) % 4 != 0 {
        Err(ParseError::InvalidBlockSize)
    } else {
        Ok(
            FileHeader {
                block_size: le32(b, 12) as u32,
                blocks: le32(b, 16) as u32,
                chunks: le32(b, 20) as u32,
                checksum: le32(b, 24) as u32,
            },
        )
    }
}

/// What decoding the first 12 bytes of `b` gives.
pub open spec fn parse_chunk_header(b: Seq<u8>) -> Result<ChunkHeader, ParseError> {
    if b.len() < CHUNK_HEADER_BYTES_LEN {
        Err(ParseError::Truncated)
    } else if chunk_type_of(le16(b, 0)) is None {
        Err(ParseError::UnknownChunkType)
    } else {
        let c = ChunkHeader {
            chunk_type: chunk_type_of(le16(b, 0))->0,
            chunk_size: le32(b, 4) as u32,
            total_size: le32(b, 8) as u32,
        };
        if valid_chunk_header(c) {
            Ok(c)
        } else {
            Err(ParseError::InvalidChunkSize)
        }
    }
}

/// The 28 bytes `b` lay out `h` as the format prescribes.
pub open spec fn is_file_header_bytes(b: Seq<u8>, h: FileHeader) -> bool {
    &&& b.len() == FILE_HEADER_BYTES_LEN
    &&& le32(b, 0) == SPARSE_MAGIC
    &&& le16(b, 4) == MAJOR_VERSION
    &&& le16(b, 6) == MINOR_VERSION
    &&& le16(b, 8) == FILE_HEADER_BYTES_LEN
    &&& le16(b, 10) == CHUNK_HEADER_BYTES_LEN
    &&& le32(b, 12) == h.block_size
    &&& le32(b, 16) == h.blocks
    &&& le32(b, 20) == h.chunks
    &&& le32(b, 24) == h.checksum
}

/// The 12 bytes `b` lay out `c` as the format prescribes.
pub open spec fn is_chunk_header_bytes(b: Seq<u8>, c: ChunkHeader) -> bool {
    &&& b.len() == CHUNK_HEADER_BYTES_LEN
    &&& le16(b, 0) == chunk_type_code(c.chunk_type)
    &&& le16(b, 2) == 0
    &&& le32(b, 4) == c.chunk_size
    &&& le32(b, 8) == c.total_size
}

pub fn read_u16(b: &[u8], o: usize) -> (r: u16)
    requires
        o + 2 <= b@.len(),
    ensures
        r == le16(b@, o as int),
{
    let n = b.len();
    let lo = b[o] as u16;
    let hi = b[o + 1] as u16;
    lo + hi * 256
}

pub fn read_u32(b: &[u8], o: usize) -> (r: u32)
    requires
        o + 4 <= b@.len(),
    ensures
        r == le32(b@, o as int),
{
    let n = b.len();
    let lo = read_u16(b, o) as u32;
    let hi = read_u16(b, o + 2) as u32;
    lo + hi * 65536
}

fn push_u16(out: &mut Vec<u8>, v: u16)
    ensures
        final(out)@.len() == old(out)@.len() + 2,
        forall|i: int| 0 <= i < old(out)@.len() ==> final(out)@[i] == old(out)@[i],
        le16(final(out)@, old(out)@.len() as int) == v,
{
    out.push((v % 256) as u8);
    out.push((v / 256) as u8);
}

fn push_u32(out: &mut Vec<u8>, v: u32)
    ensures
        final(out)@.len() == old(out)@.len() + 4,
        forall|i: int| 0 <= i < old(out)@.len() ==> final(out)@[i] == old(out)@[i],
        le32(final(out)@, old(out)@.len() as int) == v,
{
    push_u16(out, (v % 65536) as u16);
    push_u16(out, (v / 65536) as u16);
}

pub fn chunk_type_from_code(code: u16) -> (r: Option<ChunkType>)
    ensures
        r == chunk_type_of(code as int),
{
    if code == CHUNK_TYPE_RAW {
        Some(ChunkType::Raw)
    } else if code == CHUNK_TYPE_FILL {
        Some(ChunkType::Fill)
    } else if code == CHUNK_TYPE_DONT_CARE {
        Some(ChunkType::DontCare)
    } else if code == CHUNK_TYPE_CRC32 {
        Some(ChunkType::Crc32)
    } else {
        None
    }
}

impl ChunkType {
    pub fn code(&self) -> (r: u16)
        ensures
            r == chunk_type_code(*self),
    {
        match self {
            ChunkType::Raw => CHUNK_TYPE_RAW,
            ChunkType::Fill => CHUNK_TYPE_FILL,
            ChunkType::DontCare => CHUNK_TYPE_DONT_CARE,
            ChunkType::Crc32 => CHUNK_TYPE_CRC32,
        }
    }
}

impl FileHeader {
    /// Decodes the first 28 bytes of `bytes`.
    pub fn from_bytes(bytes: &[u8]) -> (r: Result<FileHeader, ParseError>)
        ensures
            r == parse_file_header(bytes@),
    {
        if bytes.len() < FILE_HEADER_BYTES_LEN {
            return Err(ParseError::Truncated);
        }
        if read_u32(bytes, 0) != SPARSE_MAGIC {
            return Err(ParseError::UnknownMagic);
        }
        if read_u16(bytes, 4) != MAJOR_VERSION {
            return Err(ParseError::UnknownMajorVersion);
        }
        if read_u16(bytes, 8) != FILE_HEADER_BYTES_LEN as u16 {
            return Err(ParseError::UnexpectedFileHeaderSize);
        }
        if read_u16(bytes, 10) != CHUNK_HEADER_BYTES_LEN as u16 {
            return Err(ParseError::UnexpectedChunkHeaderSize);
        }
        let block_size = read_u32(bytes, 12);
        if block_size % 4 != 0 {
            return Err(ParseError::InvalidBlockSize);
        }
        Ok(
            FileHeader {
                block_size,
                blocks: read_u32(bytes, 16),
                chunks: read_u32(bytes, 20),
                checksum: read_u32(bytes, 24),
            },
        )
    }

    /// Encodes the header in its 28-byte wire layout.
    pub fn to_bytes(&self) -> (r: Vec<u8>)
        ensures
            is_file_header_bytes(r@, *self),
    {
        let mut out: Vec<u8> = Vec::new();
        push_u32(&mut out, SPARSE_MAGIC);
        push_u16(&mut out, MAJOR_VERSION);
        push_u16(&mut out, MINOR_VERSION);
        push_u16(&mut out, FILE_HEADER_BYTES_LEN as u16);
        push_u16(&mut out, CHUNK_HEADER_BYTES_LEN as u16);
        push_u32(&mut out, self.block_size);
        push_u32(&mut out, self.blocks);
        push_u32(&mut out, self.chunks);
        push_u32(&mut out, self.checksum);
        out
    }

    /// Size in bytes of the expanded image.
    pub fn total_size(&self) -> (r: u64)
        ensures
            r == self.block_size * self.blocks,
    {
        proof {
            assert(self.block_size * self.blocks <= 0xffff_ffff * 0xffff_ffff) by (nonlinear_arith);
        }
        self.block_size as u64 * self.blocks as u64
    }
}

impl ChunkHeader {
    /// Decodes the first 12 bytes of `bytes`.
    pub fn from_bytes(bytes: &[u8]) -> (r: Result<ChunkHeader, ParseError>)
        ensures
            r == parse_chunk_header(bytes@),
    {
        if bytes.len() < CHUNK_HEADER_BYTES_LEN {
            return Err(ParseError::Truncated);
        }
        let chunk_type = match chunk_type_from_code(read_u16(bytes, 0)) {
            Some(t) => t,
            None => return Err(ParseError::UnknownChunkType),
        };
        let c = ChunkHeader {
            chunk_type,
            chunk_size: read_u32(bytes, 4),
            total_size: read_u32(bytes, 8),
        };
        if c.total_size < CHUNK_HEADER_BYTES_LEN as u32 {
            return Err(ParseError::InvalidChunkSize);
        }
        let data_size = c.total_size - CHUNK_HEADER_BYTES_LEN as u32;
        let ok = match chunk_type {
            ChunkType::Raw => true,
            ChunkType::Fill => data_size == 4,
            ChunkType::DontCare => data_size == 0,
            ChunkType::Crc32 => data_size == 4,
        };
        if ok {
            Ok(c)
        } else {
            Err(ParseError::InvalidChunkSize)
        }
    }

    /// Encodes the header in its 12-byte wire layout.
    pub fn to_bytes(&self) -> (r: Vec<u8>)
        ensures
            is_chunk_header_bytes(r@, *self),
    {
        let mut out: Vec<u8> = Vec::new();
        push_u16(&mut out, self.chunk_type.code());
        push_u16(&mut out, 0);
        push_u32(&mut out, self.chunk_size);
        push_u32(&mut out, self.total_size);
        out
    }

    /// Payload bytes that follow the header on the wire.
    pub fn data_size(&self) -> (r: u32)
        requires
            self.total_size >= CHUNK_HEADER_BYTES_LEN,
        ensures
            r == spec_data_size(*self),
    {
        self.total_size - CHUNK_HEADER_BYTES_LEN as u32
    }

    /// Bytes of output the chunk stands for.
    pub fn out_size(&self, header: &FileHeader) -> (r: u64)
        ensures
            r == self.chunk_size * header.block_size,
    {
        proof {
            assert(self.chunk_size * header.block_size <= 0xffff_ffff * 0xffff_ffff) by (nonlinear_arith);
        }
        self.chunk_size as u64 * header.block_size as u64
    }
}

/// Decoding the encoding of a file header gives the header back.
pub proof fn lemma_file_header_round_trip(h: FileHeader, b: Seq<u8>)
    requires
        valid_file_header(h),
        is_file_header_bytes(b, h),
    ensures
        parse_file_header(b) == Ok::<FileHeader, ParseError>(h),
{
}

/// Decoding the encoding of a chunk header gives the header back.
pub proof fn lemma_chunk_header_round_trip(c: ChunkHeader, b: Seq<u8>)
    requires
        valid_chunk_header(c),
        is_chunk_header_bytes(b, c),
    ensures
        parse_chunk_header(b) == Ok::<ChunkHeader, ParseError>(c),
{
}

} // verus!
