//! The bundled codecs - zstd, lz4, and a verbatim passthrough - and the
//! registry that resolves one from its on-disk id.

use vstd::prelude::*;

use vstd::slice::slice_to_vec;

use crate::codec::BlockMeta;
use crate::codec::Codec;
use crate::error::AncfError;
use crate::format::CODEC_LZ4;
use crate::format::CODEC_PASSTHROUGH;
use crate::format::CODEC_ZSTD;

verus! {

// ── zstd ───────────────────────────────────────────────────────────────────

/// What `zstd::decode_all` yields on a byte sequence: `Some(raw)` when the
/// bytes form a valid zstd frame decoding to `raw`, `None` when they are
/// rejected. Left uninterpreted: decoding is a deterministic function of the
/// frame bytes alone.
pub uninterp spec fn zstd_decode_of(compressed: Seq<u8>) -> Option<Seq<u8>>;

/// Relies on `zstd::bulk::compress`: a frame it produces decodes back to the
/// exact input via `zstd::decode_all`, at every compression level.
#[verifier::external_body]
fn zstd_compress_call(raw: &[u8], level: i32) -> (r: Result<Vec<u8>, AncfError>)
    ensures
        (r matches Ok(c) ==> zstd_decode_of(c@) == Some(raw@)),
        (r matches Err(e) ==> e == AncfError::CodecError),
{
    match zstd::bulk::compress(raw, level) {
        Ok(c) => Ok(c),
        Err(_) => Err(AncfError::CodecError),
    }
}

/// Relies on `zstd::decode_all`: an invalid frame is rejected with an error,
/// a valid one decodes deterministically.
#[verifier::external_body]
fn zstd_decompress_call(compressed: &[u8]) -> (r: Result<Vec<u8>, AncfError>)
    ensures
        (r matches Ok(v) ==> zstd_decode_of(compressed@) == Some(v@)),
        (r matches Err(e) ==> zstd_decode_of(compressed@) is None && e == AncfError::CodecError),
{
    match zstd::decode_all(compressed) {
        Ok(v) => Ok(v),
        Err(_) => Err(AncfError::CodecError),
    }
}

/// Zstandard block codec.
///
/// Each block is compressed independently at the configured level, so any
/// block can be decompressed without touching adjacent blocks.
pub struct ZstdCodec {
    /// Compression level (1 = fast / larger, 22 = slow / smallest).
    pub level: i32,
}

impl Default for ZstdCodec {
    fn default() -> (r: Self)
        ensures
            r.level == 3,
    {
        ZstdCodec { level: 3 }
    }
}

impl ZstdCodec {
    pub fn new(level: i32) -> (r: Self)
        ensures
            r.level == level,
    {
        ZstdCodec { level }
    }
}

impl Codec for ZstdCodec {
    open spec fn spec_id(&self) -> u16 {
        CODEC_ZSTD
    }

    open spec fn spec_decode(&self, compressed: Seq<u8>, sidecar: Seq<u8>) -> Option<Seq<u8>> {
        zstd_decode_of(compressed)
    }

    fn id(&self) -> (r: u16) {
        CODEC_ZSTD
    }

    fn name(&self) -> (r: &'static str) {
        "zstd"
    }

    fn compress_block(&self, raw: &[u8], meta: &mut BlockMeta) -> (r: Result<
        Vec<u8>,
        AncfError,
    >)
        ensures
            final(meta).sidecar@ == old(meta).sidecar@,
    {
        zstd_compress_call(raw, self.level)
    }

    fn decompress_block(&self, compressed: &[u8], meta: &BlockMeta) -> (r: Result<
        Vec<u8>,
        AncfError,
    >) {
        zstd_decompress_call(compressed)
    }
}

// ── lz4 ────────────────────────────────────────────────────────────────────

/// What `lz4_flex::decompress_size_prepended` yields on a byte sequence:
/// `Some(raw)` when the bytes are a size-prefixed lz4 block decoding to
/// `raw`, `None` when they are rejected. Left uninterpreted: decoding is a
/// deterministic function of the input bytes alone.
pub uninterp spec fn lz4_decode_of(compressed: Seq<u8>) -> Option<Seq<u8>>;

/// Relies on `lz4_flex::compress_prepend_size`: the output carries the raw
/// length as a u32 prefix and decompresses back to the exact input via
/// `lz4_flex::decompress_size_prepended`.
#[verifier::external_body]
fn lz4_compress_call(raw: &[u8]) -> (r: Vec<u8>)
    requires
        raw@.len() <= u32::MAX,
    ensures
        lz4_decode_of(r@) == Some(raw@),
{
    lz4_flex::compress_prepend_size(raw)
}

/// Relies on `lz4_flex::decompress_size_prepended` (safe-decode): malformed
/// input is rejected with an error, never a panic.
#[verifier::external_body]
fn lz4_decompress_call(compressed: &[u8]) -> (r: Result<Vec<u8>, AncfError>)
    ensures
        (r matches Ok(v) ==> lz4_decode_of(compressed@) == Some(v@)),
        (r matches Err(e) ==> lz4_decode_of(compressed@) is None && e == AncfError::CodecError),
{
    match lz4_flex::decompress_size_prepended(compressed) {
        Ok(v) => Ok(v),
        Err(_) => Err(AncfError::CodecError),
    }
}

/// LZ4 block codec: the fastest decompression of the bundled codecs, best
/// for hot data and low-latency random access.
pub struct Lz4Codec;

impl Codec for Lz4Codec {
    open spec fn spec_id(&self) -> u16 {
        CODEC_LZ4
    }

    open spec fn spec_decode(&self, compressed: Seq<u8>, sidecar: Seq<u8>) -> Option<Seq<u8>> {
        lz4_decode_of(compressed)
    }

    fn id(&self) -> (r: u16) {
        CODEC_LZ4
    }

    fn name(&self) -> (r: &'static str) {
        "lz4"
    }

    fn compress_block(&self, raw: &[u8], meta: &mut BlockMeta) -> (r: Result<
        Vec<u8>,
        AncfError,
    >)
        ensures
            (r matches Ok(c) && lz4_decode_of(c@) == Some(raw@)),
            final(meta).sidecar@ == old(meta).sidecar@,
    {
        Ok(lz4_compress_call(raw))
    }

    fn decompress_block(&self, compressed: &[u8], meta: &BlockMeta) -> (r: Result<
        Vec<u8>,
        AncfError,
    >) {
        lz4_decompress_call(compressed)
    }
}

// ── passthrough ────────────────────────────────────────────────────────────

/// No-op codec: stores blocks verbatim, with no compression.
///
/// Useful for verifying the format round-trip independently of any real
/// codec, and for data that is already compressed.
pub struct PassThroughCodec;

impl Codec for PassThroughCodec {
    open spec fn spec_id(&self) -> u16 {
        CODEC_PASSTHROUGH
    }

    open spec fn spec_decode(&self, compressed: Seq<u8>, sidecar: Seq<u8>) -> Option<Seq<u8>> {
        Some(compressed)
    }

    fn id(&self) -> (r: u16) {
        CODEC_PASSTHROUGH
    }

    fn name(&self) -> (r: &'static str) {
        "passthrough"
    }

    fn compress_block(&self, raw: &[u8], meta: &mut BlockMeta) -> (r: Result<
        Vec<u8>,
        AncfError,
    >)
        ensures
            (r matches Ok(c) && c@ == raw@),
            final(meta).sidecar@ == old(meta).sidecar@,
    {
        Ok(slice_to_vec(raw))
    }

    fn decompress_block(&self, compressed: &[u8], meta: &BlockMeta) -> (r: Result<
        Vec<u8>,
        AncfError,
    >) {
        Ok(slice_to_vec(compressed))
    }
}

// ── codec registry ─────────────────────────────────────────────────────────

/// A codec resolved at run time from its on-disk id: the sum of the bundled
/// codecs, dispatching every operation to the chosen one.
pub enum AnyCodec {
    PassThrough(PassThroughCodec),
    Zstd(ZstdCodec),
    Lz4(Lz4Codec),
}

impl Codec for AnyCodec {
    open spec fn spec_id(&self) -> u16 {
        match self {
            AnyCodec::PassThrough(c) => c.spec_id(),
            AnyCodec::Zstd(c) => c.spec_id(),
            AnyCodec::Lz4(c) => c.spec_id(),
        }
    }

    open spec fn spec_decode(&self, compressed: Seq<u8>, sidecar: Seq<u8>) -> Option<Seq<u8>> {
        match self {
            AnyCodec::PassThrough(c) => c.spec_decode(compressed, sidecar),
            AnyCodec::Zstd(c) => c.spec_decode(compressed, sidecar),
            AnyCodec::Lz4(c) => c.spec_decode(compressed, sidecar),
        }
    }

    fn id(&self) -> (r: u16) {
        match self {
            AnyCodec::PassThrough(c) => c.id(),
            AnyCodec::Zstd(c) => c.id(),
            AnyCodec::Lz4(c) => c.id(),
        }
    }

    fn name(&self) -> (r: &'static str) {
        match self {
            AnyCodec::PassThrough(c) => c.name(),
            AnyCodec::Zstd(c) => c.name(),
            AnyCodec::Lz4(c) => c.name(),
        }
    }

    fn compress_block(&self, raw: &[u8], meta: &mut BlockMeta) -> (r: Result<
        Vec<u8>,
        AncfError,
    >)
        ensures
            final(meta).sidecar@ == old(meta).sidecar@,
            (self matches AnyCodec::PassThrough(_) ==> (r matches Ok(c) && c@ == raw@)),
            (self matches AnyCodec::Lz4(_) ==> (r matches Ok(c) && lz4_decode_of(c@) == Some(
                raw@,
            ))),
    {
        match self {
            AnyCodec::PassThrough(c) => c.compress_block(raw, meta),
            AnyCodec::Zstd(c) => c.compress_block(raw, meta),
            AnyCodec::Lz4(c) => c.compress_block(raw, meta),
        }
    }

    fn decompress_block(&self, compressed: &[u8], meta: &BlockMeta) -> (r: Result<
        Vec<u8>,
        AncfError,
    >) {
        match self {
            AnyCodec::PassThrough(c) => c.decompress_block(compressed, meta),
            AnyCodec::Zstd(c) => c.decompress_block(compressed, meta),
            AnyCodec::Lz4(c) => c.decompress_block(compressed, meta),
        }
    }
}

/// Resolve a codec from its on-disk codec id, so a reader can be initialized
/// with the right codec after a first-pass header read.
pub fn codec_by_id(id: u16) -> (r: Result<AnyCodec, AncfError>)
    ensures
        (id == CODEC_PASSTHROUGH ==> (r matches Ok(c) && c == AnyCodec::PassThrough(
            PassThroughCodec,
        ))),
        (id == CODEC_ZSTD ==> (r matches Ok(c) && c matches AnyCodec::Zstd(z) && z.level == 3)),
        (id == CODEC_LZ4 ==> (r matches Ok(c) && c == AnyCodec::Lz4(Lz4Codec))),
        (id != CODEC_PASSTHROUGH && id != CODEC_ZSTD && id != CODEC_LZ4 ==> r == Err::<
            AnyCodec,
            AncfError,
        >(AncfError::UnknownCodecId)),
        (r matches Ok(c) ==> c.spec_id() == id),
{
    if id == CODEC_PASSTHROUGH {
        Ok(AnyCodec::PassThrough(PassThroughCodec))
    } else if id == CODEC_ZSTD {
        Ok(AnyCodec::Zstd(ZstdCodec::default()))
    } else if id == CODEC_LZ4 {
        Ok(AnyCodec::Lz4(Lz4Codec))
    } else {
        Err(AncfError::UnknownCodecId)
    }
}

} // verus!
