//! End-to-end tests: write an image in memory, read it back, corrupt it in
//! targeted ways, and check every error path.

use ancf::codec_by_id;
use ancf::Ancf1Header;
use ancf::AncfError;
use ancf::BlockEntry;
use ancf::Codec;
use ancf::Lz4Codec;
use ancf::PassThroughCodec;
use ancf::Reader;
use ancf::Writer;
use ancf::ZstdCodec;
use ancf::DEFAULT_BLOCK_SIZE;

/// Generate `len` deterministic bytes using a simple LCG.
fn pseudo_random_bytes(len: usize, seed: u64) -> Vec<u8> {
    let mut rng = seed;
    (0..len)
        .map(|_| {
            rng = rng
                .wrapping_mul(6364136223846793005)
                .wrapping_add(1442695040888963407);
            (rng >> 56) as u8
        })
        .collect()
}

/// Generate `len` highly compressible bytes (repeating pattern).
fn compressible_bytes(len: usize) -> Vec<u8> {
    let pattern = b"the quick brown fox jumps over the lazy dog. ";
    (0..len).map(|i| pattern[i % pattern.len()]).collect()
}

/// Write `data` as an image with the given codec and block size.
fn write_image<C: Codec>(codec: C, block_size: u32, data: &[u8]) -> (Vec<u8>, u64) {
    let mut w = Writer::create(codec, block_size);
    w.write(data).unwrap();
    w.finish().unwrap()
}

/// Byte offset of the first index entry, read from the footer.
fn index_offset(image: &[u8]) -> usize {
    let mut b = [0u8; 8];
    b.copy_from_slice(&image[image.len() - 8..]);
    u64::from_le_bytes(b) as usize
}

// ── round trips ────────────────────────────────────────────────────────────

#[test]
fn test_roundtrip_passthrough() {
    let data = compressible_bytes(4 * DEFAULT_BLOCK_SIZE as usize + 1234);
    let (image, blocks) = write_image(PassThroughCodec, DEFAULT_BLOCK_SIZE, &data);
    assert_eq!(blocks, 5); // 4 full + 1 partial

    let r = Reader::open(image, PassThroughCodec).unwrap();
    let mut reconstructed = Vec::new();
    for i in 0..r.block_count() {
        reconstructed.extend(r.read_block(i).unwrap());
    }
    assert_eq!(reconstructed, data, "passthrough round-trip should be byte-exact");
}

#[test]
fn test_roundtrip_zstd() {
    let data = compressible_bytes(8 * DEFAULT_BLOCK_SIZE as usize + 777);
    let (image, blocks) = write_image(ZstdCodec::default(), DEFAULT_BLOCK_SIZE, &data);
    assert_eq!(blocks, 9);

    let r = Reader::open(image, ZstdCodec::default()).unwrap();
    let mut reconstructed = Vec::new();
    for i in 0..r.block_count() {
        reconstructed.extend(r.read_block(i).unwrap());
    }
    assert_eq!(reconstructed, data);

    // the image should be smaller than the raw data (compressible input)
    let compressed_size = r.compressed_size();
    let raw_size = r.raw_size();
    assert!(
        compressed_size < raw_size,
        "zstd should compress compressible data: compressed={compressed_size} raw={raw_size}"
    );
    println!("zstd ratio: {:.2}x", raw_size as f64 / compressed_size as f64);
}

#[test]
fn test_roundtrip_lz4() {
    let data = compressible_bytes(3 * DEFAULT_BLOCK_SIZE as usize);
    let (image, _) = write_image(Lz4Codec, DEFAULT_BLOCK_SIZE, &data);

    let r = Reader::open(image, Lz4Codec).unwrap();
    let mut reconstructed = Vec::new();
    for i in 0..r.block_count() {
        reconstructed.extend(r.read_block(i).unwrap());
    }
    assert_eq!(reconstructed, data);
}

#[test]
fn test_exact_multiple_of_block_size() {
    let data = compressible_bytes(2048);
    let (image, blocks) = write_image(ZstdCodec::default(), 1024, &data);
    assert_eq!(blocks, 2);

    let r = Reader::open(image, ZstdCodec::default()).unwrap();
    assert_eq!(r.entries()[0].raw_len, 1024);
    assert_eq!(r.entries()[1].raw_len, 1024);
    let mut reconstructed = Vec::new();
    for i in 0..r.block_count() {
        reconstructed.extend(r.read_block(i).unwrap());
    }
    assert_eq!(reconstructed, data);
}

// ── random access ──────────────────────────────────────────────────────────

#[test]
fn test_random_access_skips_prior_blocks() {
    const NUM_BLOCKS: usize = 16;
    const TARGET_BLOCK: u64 = 12;

    let data = pseudo_random_bytes(NUM_BLOCKS * DEFAULT_BLOCK_SIZE as usize, 0xDEAD_BEEF);
    let (image, block_count) = write_image(ZstdCodec::default(), DEFAULT_BLOCK_SIZE, &data);
    assert_eq!(block_count, NUM_BLOCKS as u64);

    // open and read ONLY block 12
    let r = Reader::open(image, ZstdCodec::default()).unwrap();
    let raw = r.read_block(TARGET_BLOCK).unwrap();

    let start = TARGET_BLOCK as usize * DEFAULT_BLOCK_SIZE as usize;
    let end = start + DEFAULT_BLOCK_SIZE as usize;
    let expected = &data[start..end];

    assert_eq!(
        raw.as_slice(),
        expected,
        "block {} should decompress to the original bytes without reading blocks 0-{}",
        TARGET_BLOCK,
        TARGET_BLOCK - 1
    );
}

#[test]
fn test_read_range_crosses_block_boundary() {
    let block_size = 1024u32;
    let data = compressible_bytes(4 * block_size as usize);
    let (image, _) = write_image(ZstdCodec::default(), block_size, &data);

    let r = Reader::open(image, ZstdCodec::default()).unwrap();

    // a range that straddles the boundary between block 1 and block 2
    let start = block_size as u64 - 100; // 100 bytes from the end of block 0
    let len = 300u64; // spans into block 1
    let result = r.read_range(start, len).unwrap();

    assert_eq!(result.len(), 300);
    assert_eq!(result.as_slice(), &data[start as usize..start as usize + 300]);
}

#[test]
fn test_read_range_edges() {
    let data = compressible_bytes(3000);
    let (image, _) = write_image(PassThroughCodec, 1024, &data);
    let r = Reader::open(image, PassThroughCodec).unwrap();

    // empty ranges succeed with no bytes
    assert_eq!(r.read_range(0, 0).unwrap(), Vec::<u8>::new());
    // a range past the end is clamped
    assert_eq!(r.read_range(2900, 500).unwrap(), &data[2900..]);
    // the whole file in one range
    assert_eq!(r.read_range(0, 3000).unwrap(), data);
    // a start at or past the raw size is rejected
    assert!(matches!(r.read_range(3000, 1), Err(AncfError::OutOfRange)));
}

#[test]
fn test_read_block_out_of_range() {
    let data = compressible_bytes(100);
    let (image, blocks) = write_image(PassThroughCodec, 64, &data);
    assert_eq!(blocks, 2);
    let r = Reader::open(image, PassThroughCodec).unwrap();
    assert!(matches!(r.read_block(2), Err(AncfError::OutOfRange)));
    assert!(matches!(r.read_block(u64::MAX), Err(AncfError::OutOfRange)));
}

// ── open-time validation ───────────────────────────────────────────────────

#[test]
fn test_codec_mismatch_error() {
    let data = b"hello world test data for codec mismatch";
    let (image, _) = write_image(ZstdCodec::default(), DEFAULT_BLOCK_SIZE, data);

    // try to open with the wrong codec
    let result = Reader::open(image, Lz4Codec);
    assert!(result.is_err(), "opening with wrong codec should fail");
    let err = result.err().unwrap();
    assert!(matches!(err, AncfError::CodecMismatch));
    assert!(
        err.message().contains("codec mismatch"),
        "error message should mention codec mismatch, got: {}",
        err.message()
    );
}

#[test]
fn test_single_partial_block() {
    let data = b"a small payload that fits in one partial block";
    let (image, blocks) = write_image(ZstdCodec::default(), DEFAULT_BLOCK_SIZE, data);
    assert_eq!(blocks, 1);

    let r = Reader::open(image, ZstdCodec::default()).unwrap();
    assert_eq!(r.block_count(), 1);
    assert_eq!(r.entries()[0].raw_len, data.len() as u32);
    let raw = r.read_block(0).unwrap();
    assert_eq!(raw.as_slice(), data.as_slice());
}

#[test]
fn test_incompressible_data_no_size_gain() {
    let data = pseudo_random_bytes(DEFAULT_BLOCK_SIZE as usize * 4, 0x1234_5678);
    let (image, _) = write_image(ZstdCodec::default(), DEFAULT_BLOCK_SIZE, &data);

    let r = Reader::open(image, ZstdCodec::default()).unwrap();
    let ratio = r.raw_size() as f64 / r.compressed_size() as f64;
    println!("incompressible data ratio: {:.4}x", ratio);
    // zstd on random data expands slightly; ratio < 1.10 means essentially no gain
    assert!(
        ratio < 1.10,
        "zstd on random data should not meaningfully compress: ratio={:.4}",
        ratio
    );
}

#[test]
fn test_magic_rejection() {
    let data = b"some payload";
    let (mut image, _) = write_image(PassThroughCodec, DEFAULT_BLOCK_SIZE, data);
    image[0] ^= 0xFF;
    assert!(matches!(
        Reader::open(image, PassThroughCodec),
        Err(AncfError::InvalidMagic)
    ));
}

#[test]
fn test_unsupported_version() {
    let data = b"some payload";
    let (mut image, _) = write_image(PassThroughCodec, DEFAULT_BLOCK_SIZE, data);
    image[14] = 2; // version field, little-endian low byte
    assert!(matches!(
        Reader::open(image, PassThroughCodec),
        Err(AncfError::UnsupportedVersion)
    ));
}

#[test]
fn test_truncated_image() {
    assert!(matches!(
        Reader::open(vec![0u8; 10], PassThroughCodec),
        Err(AncfError::Io)
    ));
    let data = b"some payload";
    let (image, _) = write_image(PassThroughCodec, DEFAULT_BLOCK_SIZE, data);
    // cut the image off inside the index
    let cut = image[..image.len() - 12].to_vec();
    assert!(matches!(
        Reader::open(cut, PassThroughCodec),
        Err(AncfError::Io)
    ));
}

#[test]
fn test_codec_by_id_resolves() {
    assert_eq!(codec_by_id(0).unwrap().id(), 0);
    assert_eq!(codec_by_id(1).unwrap().id(), 1);
    assert_eq!(codec_by_id(2).unwrap().id(), 2);
    assert!(matches!(codec_by_id(9), Err(AncfError::UnknownCodecId)));

    // an image opens with the codec resolved from its own header
    let data = compressible_bytes(5000);
    let (image, _) = write_image(ZstdCodec::default(), 1024, &data);
    let header = Ancf1Header::from_bytes(&image[..56]).unwrap();
    let codec = codec_by_id(header.codec_id).unwrap();
    let r = Reader::open(image, codec).unwrap();
    assert_eq!(r.read_range(0, 5000).unwrap(), data);
}

// ── targeted corruption ────────────────────────────────────────────────────

#[test]
fn test_checksum_corruption() {
    let block_size = 1024u32;
    let data = compressible_bytes(4 * block_size as usize);
    let (image, blocks) = write_image(ZstdCodec::default(), block_size, &data);
    assert_eq!(blocks, 4);

    // find block 2's payload and flip one byte in it
    let pristine = Reader::open(image.clone(), ZstdCodec::default()).unwrap();
    let target = pristine.entries()[2];
    let mut corrupt = image;
    corrupt[target.offset as usize] ^= 0xFF;

    let r = Reader::open(corrupt, ZstdCodec::default()).unwrap();
    assert!(matches!(r.read_block(2), Err(AncfError::ChecksumMismatch)));
    // the reader is not poisoned: the other blocks still read back
    assert_eq!(r.read_block(0).unwrap(), &data[0..1024]);
    assert_eq!(r.read_block(1).unwrap(), &data[1024..2048]);
    assert_eq!(r.read_block(3).unwrap(), &data[3072..4096]);
}

#[test]
fn test_size_mismatch_on_tampered_index() {
    let data = b"twelve bytes";
    let (mut image, _) = write_image(PassThroughCodec, DEFAULT_BLOCK_SIZE, data);
    // the index is not covered by the per-block checksum: shrink raw_len
    let io = index_offset(&image);
    let raw_len_pos = io + 12;
    image[raw_len_pos] = data.len() as u8 - 1;
    let r = Reader::open(image, PassThroughCodec).unwrap();
    assert!(matches!(r.read_block(0), Err(AncfError::SizeMismatch)));
}

#[test]
fn test_metadata_len_mismatch_on_tampered_index() {
    let data = b"abcdefgh";
    let (mut image, _) = write_image(PassThroughCodec, DEFAULT_BLOCK_SIZE, data);
    // claim a sidecar the block does not have: the on-disk prefix (the first
    // payload bytes, here 'ab') cannot agree with it
    let io = index_offset(&image);
    image[io + 24] = 7;
    let r = Reader::open(image, PassThroughCodec).unwrap();
    assert!(matches!(r.read_block(0), Err(AncfError::MetadataLenMismatch)));
}

#[test]
fn test_codec_error_on_garbage_payload() {
    let data = b"this is plain text, not a zstd frame";
    let (mut image, _) = write_image(PassThroughCodec, DEFAULT_BLOCK_SIZE, data);
    // relabel the file as zstd; the payload and its checksum are untouched
    image[16] = 1;
    let r = Reader::open(image, ZstdCodec::default()).unwrap();
    assert!(matches!(r.read_block(0), Err(AncfError::CodecError)));
}

// ── format primitives ──────────────────────────────────────────────────────

#[test]
fn test_header_encoding_exact() {
    let h = Ancf1Header {
        version: 1,
        codec_id: 2,
        block_size: 65536,
        block_count: 3,
        flags: 1,
    };
    let bytes = h.to_bytes();
    assert_eq!(bytes.len(), 56);
    assert_eq!(&bytes[..6], b"ANCF1\n");
    assert_eq!(&bytes[6..14], &[0u8; 8]);
    assert_eq!(&bytes[14..16], &[1, 0]); // version, LE
    assert_eq!(&bytes[16..18], &[2, 0]); // codec id, LE
    assert_eq!(&bytes[18..22], &[0, 0, 1, 0]); // 65536, LE
    assert_eq!(&bytes[22..30], &[3, 0, 0, 0, 0, 0, 0, 0]);
    assert_eq!(&bytes[30..38], &[1, 0, 0, 0, 0, 0, 0, 0]);
    assert_eq!(&bytes[38..56], &[0u8; 18]); // reserved

    let back = Ancf1Header::from_bytes(&bytes).unwrap();
    assert_eq!(back, h);
    assert!(back.has_flag(1));
    assert!(!back.has_flag(2));
}

#[test]
fn test_header_rejects_bad_magic() {
    let h = Ancf1Header {
        version: 1,
        codec_id: 0,
        block_size: 1024,
        block_count: 0,
        flags: 0,
    };
    let mut bytes = h.to_bytes();
    bytes[5] = b'x';
    assert!(matches!(
        Ancf1Header::from_bytes(&bytes),
        Err(AncfError::InvalidMagic)
    ));
}

#[test]
fn test_entry_encoding_exact() {
    let e = BlockEntry {
        offset: 56,
        compressed_len: 300,
        raw_len: 1024,
        checksum: 0x0123456789ABCDEF,
        metadata_len: 2,
    };
    let bytes = e.to_bytes();
    assert_eq!(bytes.len(), 32);
    assert_eq!(&bytes[0..8], &[56, 0, 0, 0, 0, 0, 0, 0]);
    assert_eq!(&bytes[8..12], &[44, 1, 0, 0]); // 300, LE
    assert_eq!(&bytes[12..16], &[0, 4, 0, 0]); // 1024, LE
    assert_eq!(&bytes[16..24], &[0xEF, 0xCD, 0xAB, 0x89, 0x67, 0x45, 0x23, 0x01]);
    assert_eq!(&bytes[24..26], &[2, 0]);
    assert_eq!(&bytes[26..32], &[0u8; 6]); // reserved

    let back = BlockEntry::from_bytes(&bytes).unwrap();
    assert_eq!(back, e);
}

#[test]
fn test_writer_across_many_small_writes() {
    let data = compressible_bytes(5000);
    let mut w = Writer::create(PassThroughCodec, 1024);
    for piece in data.chunks(7) {
        w.write(piece).unwrap();
    }
    let (image, blocks) = w.finish().unwrap();
    assert_eq!(blocks, 5); // ceil(5000 / 1024)
    let r = Reader::open(image, PassThroughCodec).unwrap();
    assert_eq!(r.raw_size(), 5000);
    assert_eq!(r.read_range(0, 5000).unwrap(), data);
}

#[test]
fn test_empty_input_writes_zero_blocks() {
    let (image, blocks) = write_image(PassThroughCodec, 1024, b"");
    assert_eq!(blocks, 0);
    let r = Reader::open(image, PassThroughCodec).unwrap();
    assert_eq!(r.block_count(), 0);
    assert_eq!(r.raw_size(), 0);
    assert_eq!(r.compressed_size(), 0);
    assert!(matches!(r.read_range(0, 1), Err(AncfError::OutOfRange)));
}
