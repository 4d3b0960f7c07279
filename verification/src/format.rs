//! Byte-exact format primitives: the magic, the 56-byte header, the 32-byte
//! index entry, and their encoders and decoders, little-endian throughout.

use vstd::prelude::*;

use vstd::bytes::*;
use vstd::slice::slice_index_get;
use vstd::slice::slice_subrange;
use vstd::assert_seqs_equal;

use crate::error::AncfError;

verus! {

/// Fixed size of the ANCF1 file header in bytes:
///   magic[14] + version:u16 + codec_id:u16 + block_size:u32
///   + block_count:u64 + flags:u64 + reserved[18] = 56.
pub const HEADER_SIZE: u64 = 56;

/// Size of each entry in the block index, in bytes:
///   offset:u64 + compressed_len:u32 + raw_len:u32
///   + checksum:u64 + metadata_len:u16 + reserved[6] = 32.
pub const BLOCK_ENTRY_SIZE: u64 = 32;

/// Size of the index footer (a single u64 offset) in bytes.
pub const FOOTER_SIZE: u64 = 8;

/// Default block size: 64 KiB.
pub const DEFAULT_BLOCK_SIZE: u32 = 64 * 1024;

/// Flag bit 0: each block carries an xxh3-64 checksum of its compressed
/// payload, which readers must verify before decoding.
pub const FLAG_HAS_CHECKSUM: u64 = 1;

/// Flag bit 1: some block carries a per-block metadata sidecar. Advisory
/// only; the authoritative indicator per block is `metadata_len > 0` in its
/// index entry.
pub const FLAG_PER_BLOCK_META: u64 = 2;

pub const CODEC_PASSTHROUGH: u16 = 0;

pub const CODEC_ZSTD: u16 = 1;

pub const CODEC_LZ4: u16 = 2;

pub const CODEC_DELTA_INT: u16 = 3;

pub const CODEC_FLOAT_QUANT: u16 = 4;

pub const CODEC_BITPACK: u16 = 5;

pub const CODEC_RLE: u16 = 6;

/// The 14 magic bytes that begin every ANCF1 file: `ANCF1\n` followed by
/// eight zero bytes.
pub open spec fn spec_magic() -> Seq<u8> {
    seq![65u8, 78u8, 67u8, 70u8, 49u8, 10u8, 0u8, 0u8, 0u8, 0u8, 0u8, 0u8, 0u8, 0u8]
}

/// Append the magic bytes to `buf`.
fn push_magic(buf: &mut Vec<u8>)
    ensures
        final(buf)@ == old(buf)@ + spec_magic(),
{
    let ghost orig = buf@;
    buf.push(65);
    buf.push(78);
    buf.push(67);
    buf.push(70);
    buf.push(49);
    buf.push(10);
    buf.push(0);
    buf.push(0);
    buf.push(0);
    buf.push(0);
    buf.push(0);
    buf.push(0);
    buf.push(0);
    buf.push(0);
    proof {
        assert_seqs_equal!(buf@ == orig + spec_magic());
    }
}

/// Whether the first 14 bytes of `buf` are the magic.
fn magic_matches(buf: &[u8]) -> (r: bool)
    requires
        buf@.len() >= 14,
    ensures
        r == (buf@.subrange(0, 14) == spec_magic()),
{
    let r = *slice_index_get(buf, 0) == 65 && *slice_index_get(buf, 1) == 78
        && *slice_index_get(buf, 2) == 67 && *slice_index_get(buf, 3) == 70
        && *slice_index_get(buf, 4) == 49 && *slice_index_get(buf, 5) == 10
        && *slice_index_get(buf, 6) == 0 && *slice_index_get(buf, 7) == 0
        && *slice_index_get(buf, 8) == 0 && *slice_index_get(buf, 9) == 0
        && *slice_index_get(buf, 10) == 0 && *slice_index_get(buf, 11) == 0
        && *slice_index_get(buf, 12) == 0 && *slice_index_get(buf, 13) == 0;
    proof {
        if r {
            assert_seqs_equal!(buf@.subrange(0, 14) == spec_magic());
        } else {
            if buf@.subrange(0, 14) == spec_magic() {
                assert(forall|i: int|
                    0 <= i < 14 ==> buf@[i] == #[trigger] buf@.subrange(0, 14)[i]);
                assert(false);
            }
        }
    }
    r
}

// ── Header ─────────────────────────────────────────────────────────────────

/// Decoded representation of the 56-byte ANCF1 file header.
#[derive(Clone, Copy, Debug, PartialEq, Eq, Structural)]
pub struct Ancf1Header {
    pub version: u16,
    pub codec_id: u16,
    /// Nominal raw bytes per block (the last block may be smaller).
    pub block_size: u32,
    pub block_count: u64,
    pub flags: u64,
}

/// The exact 56 bytes that encode a header, little-endian throughout, with
/// the 18 reserved bytes zero.
pub open spec fn spec_header_bytes(h: Ancf1Header) -> Seq<u8> {
    spec_magic() + spec_u16_to_le_bytes(h.version) + spec_u16_to_le_bytes(h.codec_id)
        + spec_u32_to_le_bytes(h.block_size) + spec_u64_to_le_bytes(h.block_count)
        + spec_u64_to_le_bytes(h.flags) + Seq::new(18, |i: int| 0u8)
}

/// The header fields read back from 56 encoded bytes (the magic and the
/// reserved bytes carry no fields).
pub open spec fn spec_header_decode(b: Seq<u8>) -> Ancf1Header {
    Ancf1Header {
        version: spec_u16_from_le_bytes(b.subrange(14, 16)),
        codec_id: spec_u16_from_le_bytes(b.subrange(16, 18)),
        block_size: spec_u32_from_le_bytes(b.subrange(18, 22)),
        block_count: spec_u64_from_le_bytes(b.subrange(22, 30)),
        flags: spec_u64_from_le_bytes(b.subrange(30, 38)),
    }
}

/// Encoding a header gives 56 bytes that begin with the magic and decode
/// back to the same header.
pub proof fn lemma_header_roundtrip(h: Ancf1Header)
    ensures
        spec_header_bytes(h).len() == HEADER_SIZE,
        spec_header_bytes(h).subrange(0, 14) == spec_magic(),
        spec_header_decode(spec_header_bytes(h)) == h,
{
    lemma_auto_spec_u16_to_from_le_bytes();
    lemma_auto_spec_u32_to_from_le_bytes();
    lemma_auto_spec_u64_to_from_le_bytes();
    let b = spec_header_bytes(h);
    assert_seqs_equal!(b.subrange(0, 14) == spec_magic());
    assert_seqs_equal!(b.subrange(14, 16) == spec_u16_to_le_bytes(h.version));
    assert_seqs_equal!(b.subrange(16, 18) == spec_u16_to_le_bytes(h.codec_id));
    assert_seqs_equal!(b.subrange(18, 22) == spec_u32_to_le_bytes(h.block_size));
    assert_seqs_equal!(b.subrange(22, 30) == spec_u64_to_le_bytes(h.block_count));
    assert_seqs_equal!(b.subrange(30, 38) == spec_u64_to_le_bytes(h.flags));
}

impl Ancf1Header {
    /// Serialize to exactly `HEADER_SIZE` bytes.
    pub fn to_bytes(&self) -> (r: Vec<u8>)
        ensures
            r@ == spec_header_bytes(*self),
            r@.len() == HEADER_SIZE,
    {
        proof {
            lemma_header_roundtrip(*self);
        }
        let mut buf: Vec<u8> = Vec::new();
        push_magic(&mut buf);
        let mut part = u16_to_le_bytes(self.version);
        buf.append(&mut part);
        let mut part = u16_to_le_bytes(self.codec_id);
        buf.append(&mut part);
        let mut part = u32_to_le_bytes(self.block_size);
        buf.append(&mut part);
        let mut part = u64_to_le_bytes(self.block_count);
        buf.append(&mut part);
        let mut part = u64_to_le_bytes(self.flags);
        buf.append(&mut part);
        let mut reserved = vec![0u8; 18];
        buf.append(&mut reserved);
        proof {
            assert_seqs_equal!(buf@ == spec_header_bytes(*self));
        }
        buf
    }

    /// Deserialize from `HEADER_SIZE` bytes, checking the magic.
    pub fn from_bytes(buf: &[u8]) -> (r: Result<Self, AncfError>)
        requires
            buf@.len() == HEADER_SIZE,
        ensures
            (buf@.subrange(0, 14) == spec_magic() ==> (r matches Ok(h) && h == spec_header_decode(
                buf@,
            ))),
            (buf@.subrange(0, 14) != spec_magic() ==> r == Err::<
                Ancf1Header,
                AncfError,
            >(AncfError::InvalidMagic)),
    {
        if !magic_matches(buf) {
            return Err(AncfError::InvalidMagic);
        }
        Ok(Ancf1Header {
            version: u16_from_le_bytes(slice_subrange(buf, 14, 16)),
            codec_id: u16_from_le_bytes(slice_subrange(buf, 16, 18)),
            block_size: u32_from_le_bytes(slice_subrange(buf, 18, 22)),
            block_count: u64_from_le_bytes(slice_subrange(buf, 22, 30)),
            flags: u64_from_le_bytes(slice_subrange(buf, 30, 38)),
        })
    }

    /// Whether `flag` (a bit mask) is set in this header's flags.
    pub fn has_flag(&self, flag: u64) -> (r: bool)
        ensures
            r == ((self.flags & flag) != 0),
    {
        self.flags & flag != 0
    }
}

// ── Block index entry ───────────────────────────────────────────────────────

/// One entry in the block index: locates and describes a single compressed
/// block.
#[derive(Clone, Copy, Debug, PartialEq, Eq, Structural)]
pub struct BlockEntry {
    /// Byte offset of this block's first on-disk byte from the start of the
    /// file (the metadata prefix if present, else the compressed payload).
    pub offset: u64,
    /// Length of the compressed payload in bytes, excluding any metadata
    /// prefix.
    pub compressed_len: u32,
    /// Length of the original uncompressed data in bytes.
    pub raw_len: u32,
    /// xxh3-64 of the compressed payload bytes.
    pub checksum: u64,
    /// Bytes of per-block sidecar metadata written before the compressed
    /// payload; zero when absent.
    pub metadata_len: u16,
}

/// The exact 32 bytes that encode an index entry, little-endian, with the 6
/// reserved bytes zero.
pub open spec fn spec_entry_bytes(e: BlockEntry) -> Seq<u8> {
    spec_u64_to_le_bytes(e.offset) + spec_u32_to_le_bytes(e.compressed_len)
        + spec_u32_to_le_bytes(e.raw_len) + spec_u64_to_le_bytes(e.checksum)
        + spec_u16_to_le_bytes(e.metadata_len) + Seq::new(6, |i: int| 0u8)
}

/// The entry fields read back from 32 encoded bytes.
pub open spec fn spec_entry_decode(b: Seq<u8>) -> BlockEntry {
    BlockEntry {
        offset: spec_u64_from_le_bytes(b.subrange(0, 8)),
        compressed_len: spec_u32_from_le_bytes(b.subrange(8, 12)),
        raw_len: spec_u32_from_le_bytes(b.subrange(12, 16)),
        checksum: spec_u64_from_le_bytes(b.subrange(16, 24)),
        metadata_len: spec_u16_from_le_bytes(b.subrange(24, 26)),
    }
}

/// Encoding an index entry gives 32 bytes that decode back to the same
/// entry.
pub proof fn lemma_entry_roundtrip(e: BlockEntry)
    ensures
        spec_entry_bytes(e).len() == BLOCK_ENTRY_SIZE,
        spec_entry_decode(spec_entry_bytes(e)) == e,
{
    lemma_auto_spec_u16_to_from_le_bytes();
    lemma_auto_spec_u32_to_from_le_bytes();
    lemma_auto_spec_u64_to_from_le_bytes();
    let b = spec_entry_bytes(e);
    assert_seqs_equal!(b.subrange(0, 8) == spec_u64_to_le_bytes(e.offset));
    assert_seqs_equal!(b.subrange(8, 12) == spec_u32_to_le_bytes(e.compressed_len));
    assert_seqs_equal!(b.subrange(12, 16) == spec_u32_to_le_bytes(e.raw_len));
    assert_seqs_equal!(b.subrange(16, 24) == spec_u64_to_le_bytes(e.checksum));
    assert_seqs_equal!(b.subrange(24, 26) == spec_u16_to_le_bytes(e.metadata_len));
}

impl BlockEntry {
    /// Serialize to exactly `BLOCK_ENTRY_SIZE` bytes.
    pub fn to_bytes(&self) -> (r: Vec<u8>)
        ensures
            r@ == spec_entry_bytes(*self),
            r@.len() == BLOCK_ENTRY_SIZE,
    {
        proof {
            lemma_entry_roundtrip(*self);
        }
        let mut buf: Vec<u8> = Vec::new();
        let mut part = u64_to_le_bytes(self.offset);
        buf.append(&mut part);
        let mut part = u32_to_le_bytes(self.compressed_len);
        buf.append(&mut part);
        let mut part = u32_to_le_bytes(self.raw_len);
        buf.append(&mut part);
        let mut part = u64_to_le_bytes(self.checksum);
        buf.append(&mut part);
        let mut part = u16_to_le_bytes(self.metadata_len);
        buf.append(&mut part);
        let mut reserved = vec![0u8; 6];
        buf.append(&mut reserved);
        proof {
            assert_seqs_equal!(buf@ == spec_entry_bytes(*self));
        }
        buf
    }

    /// Deserialize from `BLOCK_ENTRY_SIZE` bytes.
    pub fn from_bytes(buf: &[u8]) -> (r: Result<Self, AncfError>)
        requires
            buf@.len() == BLOCK_ENTRY_SIZE,
        ensures
            r matches Ok(e) && e == spec_entry_decode(buf@),
    {
        Ok(BlockEntry {
            offset: u64_from_le_bytes(slice_subrange(buf, 0, 8)),
            compressed_len: u32_from_le_bytes(slice_subrange(buf, 8, 12)),
            raw_len: u32_from_le_bytes(slice_subrange(buf, 12, 16)),
            checksum: u64_from_le_bytes(slice_subrange(buf, 16, 24)),
            metadata_len: u16_from_le_bytes(slice_subrange(buf, 24, 26)),
        })
    }
}

} // verus!
