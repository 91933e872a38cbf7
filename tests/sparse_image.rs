use fastboot_protocol::image::{encode_raw, expand, scan, ScannedChunk};
use fastboot_protocol::sparse::{ChunkHeader, ChunkType, FileHeader, ParseError};
use fastboot_protocol::split::{split_image, SplitError};

fn chunk(chunk_type: ChunkType, chunk_size: u32, data: u32) -> ChunkHeader {
    ChunkHeader { chunk_type, chunk_size, total_size: 12 + data }
}

/// Raw(1 block of 0xAA), Fill(2 blocks of 0xDEADBEEF), DontCare(1 block).
fn sample_image() -> Vec<u8> {
    let header = FileHeader { block_size: 4096, blocks: 4, chunks: 3, checksum: 0 };
    let mut img = header.to_bytes();
    img.extend(chunk(ChunkType::Raw, 1, 4096).to_bytes());
    img.extend(vec![0xAAu8; 4096]);
    img.extend(chunk(ChunkType::Fill, 2, 4).to_bytes());
    img.extend(0xDEADBEEFu32.to_le_bytes());
    img.extend(chunk(ChunkType::DontCare, 1, 0).to_bytes());
    img
}

#[test]
fn file_header_layout() {
    let h = FileHeader { block_size: 4096, blocks: 4, chunks: 3, checksum: 7 };
    let b = h.to_bytes();
    assert_eq!(
        b,
        vec![
            0x3a, 0xff, 0x26, 0xed, 1, 0, 0, 0, 28, 0, 12, 0, 0, 0x10, 0, 0, 4, 0, 0, 0, 3, 0, 0, 0, 7, 0,
            0, 0
        ]
    );
}

#[test]
fn file_header_round_trip() {
    let h = FileHeader { block_size: 512, blocks: 0xdead_beef, chunks: 17, checksum: 0x1234_5678 };
    assert_eq!(FileHeader::from_bytes(&h.to_bytes()), Ok(h));
}

#[test]
fn chunk_header_round_trip() {
    for c in [
        chunk(ChunkType::Raw, 3, 3 * 4096),
        chunk(ChunkType::Fill, 9, 4),
        chunk(ChunkType::DontCare, 100, 0),
        chunk(ChunkType::Crc32, 0, 4),
    ] {
        assert_eq!(ChunkHeader::from_bytes(&c.to_bytes()), Ok(c));
    }
    assert_eq!(chunk(ChunkType::Fill, 1, 4).to_bytes(), vec![0xc2, 0xca, 0, 0, 1, 0, 0, 0, 16, 0, 0, 0]);
}

#[test]
fn invalid_magic_is_structural_error() {
    let mut b = FileHeader { block_size: 4096, blocks: 1, chunks: 0, checksum: 0 }.to_bytes();
    b[0] = 0;
    assert_eq!(FileHeader::from_bytes(&b), Err(ParseError::UnknownMagic));
}

#[test]
fn unknown_chunk_type_is_structural_error() {
    let b = [0xc5, 0xca, 0, 0, 1, 0, 0, 0, 12, 0, 0, 0];
    assert_eq!(ChunkHeader::from_bytes(&b), Err(ParseError::UnknownChunkType));
}

#[test]
fn header_rejections() {
    let good = FileHeader { block_size: 4096, blocks: 1, chunks: 0, checksum: 0 }.to_bytes();
    assert_eq!(FileHeader::from_bytes(&good[..27]), Err(ParseError::Truncated));
    let mut b = good.clone();
    b[4] = 2;
    assert_eq!(FileHeader::from_bytes(&b), Err(ParseError::UnknownMajorVersion));
    let mut b = good.clone();
    b[8] = 29;
    assert_eq!(FileHeader::from_bytes(&b), Err(ParseError::UnexpectedFileHeaderSize));
    let mut b = good.clone();
    b[10] = 13;
    assert_eq!(FileHeader::from_bytes(&b), Err(ParseError::UnexpectedChunkHeaderSize));
    let b = FileHeader { block_size: 4098, blocks: 1, chunks: 0, checksum: 0 }.to_bytes();
    assert_eq!(FileHeader::from_bytes(&b), Err(ParseError::InvalidBlockSize));
    assert_eq!(ChunkHeader::from_bytes(&chunk(ChunkType::Fill, 1, 8).to_bytes()), Err(ParseError::InvalidChunkSize));
    assert_eq!(ChunkHeader::from_bytes(&chunk(ChunkType::DontCare, 1, 4).to_bytes()), Err(ParseError::InvalidChunkSize));
    let short = ChunkHeader { chunk_type: ChunkType::Raw, chunk_size: 0, total_size: 8 };
    assert_eq!(ChunkHeader::from_bytes(&short.to_bytes()), Err(ParseError::InvalidChunkSize));
}

#[test]
fn sizes() {
    let h = FileHeader { block_size: 4096, blocks: 4, chunks: 3, checksum: 0 };
    assert_eq!(h.total_size(), 16384);
    let c = chunk(ChunkType::Raw, 2, 8192);
    assert_eq!(c.data_size(), 8192);
    assert_eq!(c.out_size(&h), 8192);
}

#[test]
fn expand_sample_image() {
    let img = sample_image();
    let image = scan(&img).unwrap();
    assert_eq!(image.chunks.len(), 3);
    assert_eq!(image.chunks[0].offset, 40);
    let out = expand(&img, &image);
    assert_eq!(out.len(), 16384);
    assert!(out[..4096].iter().all(|b| *b == 0xAA));
    for block in out[4096..12288].chunks(4) {
        assert_eq!(block, &[0xEF, 0xBE, 0xAD, 0xDE]);
    }
    assert!(out[12288..].iter().all(|b| *b == 0));
}

#[test]
fn expand_twice_through_raw_image() {
    let img = sample_image();
    let first = expand(&img, &scan(&img).unwrap());
    let again = encode_raw(4096, &first);
    assert_eq!(again.len(), 40 + 16384);
    let image = scan(&again).unwrap();
    assert_eq!(image.header, FileHeader { block_size: 4096, blocks: 4, chunks: 1, checksum: 0 });
    assert_eq!(image.chunks, vec![ScannedChunk { header: chunk(ChunkType::Raw, 4, 16384), offset: 40, size: 16384 }]);
    let second = expand(&again, &image);
    assert_eq!(first, second);
}

#[test]
fn scan_rejections() {
    let mut img = sample_image();
    img.truncate(img.len() - 13);
    assert_eq!(scan(&img).unwrap_err(), ParseError::Truncated);
    let mut img = sample_image();
    img[16] = 5;
    assert_eq!(scan(&img).unwrap_err(), ParseError::BlockCountMismatch);
    let header = FileHeader { block_size: 4096, blocks: 2, chunks: 1, checksum: 0 };
    let mut img = header.to_bytes();
    img.extend(chunk(ChunkType::Raw, 2, 4096).to_bytes());
    img.extend(vec![0u8; 4096]);
    assert_eq!(scan(&img).unwrap_err(), ParseError::InvalidChunkSize);
}

#[test]
fn split_sample_image() {
    let img = sample_image();
    let image = scan(&img).unwrap();
    let frags = split_image(&image.header, &image.chunks, 28 + 12 * 3 + 4096).unwrap();
    assert_eq!(frags.len(), 2);
    let f0 = &frags[0];
    assert_eq!(f0.header, FileHeader { block_size: 4096, blocks: 1, chunks: 1, checksum: 0 });
    assert_eq!(f0.chunks, vec![image.chunks[0]]);
    let f1 = &frags[1];
    assert_eq!(f1.header, FileHeader { block_size: 4096, blocks: 4, chunks: 3, checksum: 0 });
    let skip = ScannedChunk { header: chunk(ChunkType::DontCare, 1, 0), offset: 0, size: 0 };
    assert_eq!(f1.chunks, vec![skip, image.chunks[1], image.chunks[2]]);
}

#[test]
fn split_raw_chunk_across_fragments() {
    let header = FileHeader { block_size: 4096, blocks: 10, chunks: 1, checksum: 0 };
    let mut img = header.to_bytes();
    img.extend(chunk(ChunkType::Raw, 10, 10 * 4096).to_bytes());
    img.extend((0..10 * 4096).map(|i| (i / 4096) as u8));
    let image = scan(&img).unwrap();
    let budget = 28 + 12 + 12 + 4 * 4096;
    let frags = split_image(&image.header, &image.chunks, budget).unwrap();
    assert_eq!(frags.len(), 3);
    let raw = |n: u32, offset: usize| ScannedChunk {
        header: chunk(ChunkType::Raw, n, n * 4096),
        offset,
        size: n as usize * 4096,
    };
    let skip = |n: u32| ScannedChunk { header: chunk(ChunkType::DontCare, n, 0), offset: 0, size: 0 };
    assert_eq!(frags[0].chunks, vec![raw(4, 40)]);
    assert_eq!(frags[1].chunks, vec![skip(4), raw(4, 40 + 4 * 4096)]);
    assert_eq!(frags[2].chunks, vec![skip(8), raw(2, 40 + 8 * 4096)]);
    let blocks: Vec<u32> = frags.iter().map(|f| f.header.blocks).collect();
    assert_eq!(blocks, vec![4, 8, 10]);
    let added: u32 = blocks.iter().zip([0u32, 4, 8]).map(|(b, lead)| b - lead).sum();
    assert_eq!(added, 10);
    for f in &frags {
        let wire: usize = 28 + f.chunks.iter().map(|c| 12 + c.size).sum::<usize>();
        assert!(wire <= budget as usize);
    }
}

#[test]
fn split_flashed_in_order_rebuilds_image() {
    let img = sample_image();
    let image = scan(&img).unwrap();
    let whole = expand(&img, &image);
    for budget in [4148u32, 4160, 8300, 20000] {
        let frags = split_image(&image.header, &image.chunks, budget).unwrap();
        let mut target = vec![0u8; whole.len()];
        for f in &frags {
            let mut pos = 0usize;
            for c in &f.chunks {
                let len = c.header.chunk_size as usize * 4096;
                match c.header.chunk_type {
                    ChunkType::Raw => target[pos..pos + len].copy_from_slice(&img[c.offset..c.offset + c.size]),
                    ChunkType::Fill => {
                        for i in 0..len {
                            target[pos + i] = img[c.offset + i % 4];
                        }
                    }
                    _ => {}
                }
                pos += len;
            }
        }
        assert_eq!(target, whole);
    }
}

#[test]
fn split_budget_too_small() {
    let img = sample_image();
    let image = scan(&img).unwrap();
    assert_eq!(split_image(&image.header, &image.chunks, 28 + 24 + 4095).unwrap_err(), SplitError::PlanInfeasible);
    assert!(split_image(&image.header, &image.chunks, 28 + 24 + 4096).is_ok());
}

#[test]
fn split_with_zero_block_size() {
    let header = FileHeader { block_size: 0, blocks: 0, chunks: 1, checksum: 0 };
    let fill = ScannedChunk { header: chunk(ChunkType::Fill, 0, 4), offset: 40, size: 4 };
    assert_eq!(split_image(&header, &[fill], 55).unwrap_err(), SplitError::PlanInfeasible);
    let frags = split_image(&header, &[fill], 56).unwrap();
    assert_eq!(frags.len(), 1);
    assert_eq!(frags[0].chunks, vec![fill]);
}
