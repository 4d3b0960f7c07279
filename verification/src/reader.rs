//! The random-access reader: parse and validate an ANCF1 image, then serve
//! any block or byte range by touching only the bytes that store it.

use vstd::prelude::*;

use vstd::assert_seqs_equal;
use vstd::bytes::spec_u16_from_le_bytes;
use vstd::bytes::spec_u64_from_le_bytes;
use vstd::bytes::u16_from_le_bytes;
use vstd::bytes::u64_from_le_bytes;
use vstd::slice::slice_subrange;
use vstd::slice::slice_to_vec;

use crate::checksum::xxh3_64_of;
use crate::checksum::xxh3_checksum;
use crate::codec::BlockMeta;
use crate::codec::Codec;
use crate::error::AncfError;
use crate::format::spec_entry_decode;
use crate::format::spec_header_bytes;
use crate::format::spec_header_decode;
use crate::format::spec_magic;
use crate::format::Ancf1Header;
use crate::format::BlockEntry;
use crate::format::BLOCK_ENTRY_SIZE;
use crate::format::FLAG_HAS_CHECKSUM;
use crate::format::HEADER_SIZE;
use crate::format::lemma_entry_roundtrip;
use crate::format::lemma_header_roundtrip;
use crate::model::lemma_block_count_bounds;
use crate::model::lemma_chained_offset_lb;
use crate::model::lemma_chunk_len;
use crate::model::lemma_chunks_cover_data;
use crate::model::lemma_div_bounds;
use crate::model::lemma_index_bytes_at;
use crate::model::lemma_index_bytes_len;
use crate::model::lemma_last_block_in_range;
use crate::model::lemma_mul_div_le;
use crate::model::spec_block_count;
use crate::model::spec_block_recovers;
use crate::model::spec_chunk;
use crate::model::spec_chunks_concat;
use crate::model::spec_entries_chained;
use crate::model::spec_payload_of;
use crate::model::spec_sealed;
use crate::model::spec_sealed_with;
use crate::model::spec_sidecar_of;
use crate::model::spec_stored_len;
use crate::model::spec_sum_comp;
use crate::model::spec_sum_raw;

verus! {

/// The index entries read back from an image: entry `i` decodes from the 32
/// bytes at `index_off + 32 * i`.
pub open spec fn spec_parse_entries(image: Seq<u8>, index_off: int, n: int) -> Seq<BlockEntry> {
    Seq::new(n as nat, |i: int| spec_entry_decode(image.subrange(index_off + 32 * i, index_off + 32 * i + 32)))
}

/// What reading block `e` from `image` yields, step by step as the reader
/// proceeds: the metadata prefix is read and compared first, then the
/// stored bytes are located, the checksum verified when `flags` demand it,
/// and the payload decoded and size-checked.
pub open spec fn spec_read_block<C: Codec>(
    image: Seq<u8>,
    codec: C,
    flags: u64,
    e: BlockEntry,
) -> Result<Seq<u8>, AncfError> {
    if e.metadata_len > 0 && e.offset + 2 > image.len() {
        Err(AncfError::Io)
    } else if e.metadata_len > 0 && spec_u16_from_le_bytes(
        image.subrange(e.offset as int, e.offset + 2),
    ) != e.metadata_len {
        Err(AncfError::MetadataLenMismatch)
    } else if e.offset + spec_stored_len(e) > image.len() {
        Err(AncfError::Io)
    } else if flags & FLAG_HAS_CHECKSUM != 0 && xxh3_64_of(spec_payload_of(image, e))
        != e.checksum {
        Err(AncfError::ChecksumMismatch)
    } else {
        match codec.spec_decode(spec_payload_of(image, e), spec_sidecar_of(image, e)) {
            Option::None => Err(AncfError::CodecError),
            Option::Some(raw) => if raw.len() != e.raw_len {
                Err(AncfError::SizeMismatch)
            } else {
                Ok(raw)
            },
        }
    }
}

/// Random-access reader for ANCF1 images.
///
/// `open` parses and validates the header, reads the footer to find the
/// block index, and loads the whole index into memory. After that each
/// block is decoded on demand from its own stored bytes alone; no other
/// block is ever touched.
pub struct Reader<C: Codec> {
    image: Vec<u8>,
    header: Ancf1Header,
    entries: Vec<BlockEntry>,
    codec: C,
    raw_total: u64,
    comp_total: u64,
}

impl<C: Codec> Reader<C> {
    /// The bytes of the image this reader serves.
    pub closed spec fn spec_image(self) -> Seq<u8> {
        self.image@
    }

    /// The parsed file header.
    pub closed spec fn spec_header(self) -> Ancf1Header {
        self.header
    }

    /// The loaded block index.
    pub closed spec fn spec_entries(self) -> Seq<BlockEntry> {
        self.entries@
    }

    /// The codec this reader decodes with.
    pub closed spec fn spec_codec(self) -> C {
        self.codec
    }

    /// Internal consistency: the index length matches the header and the
    /// cached totals are the sums over the index.
    pub closed spec fn wf(self) -> bool {
        &&& self.entries@.len() == self.header.block_count
        &&& self.raw_total == spec_sum_raw(self.entries@)
        &&& self.comp_total == spec_sum_comp(self.entries@)
    }

    /// The image carries `data`: the index splits it into chunks of the
    /// header's block size, and every stored block recovers its chunk.
    pub open spec fn valid_data(self, data: Seq<u8>) -> bool {
        let n = self.spec_entries().len() as int;
        let bs = self.spec_header().block_size as int;
        &&& bs > 0
        &&& data.len() <= u64::MAX
        &&& n == spec_block_count(data.len() as int, bs)
        &&& spec_sum_raw(self.spec_entries()) == data.len()
        &&& (forall|i: int|
            0 <= i < n ==> #[trigger] spec_block_recovers(
                self.spec_image(),
                self.spec_codec(),
                self.spec_entries()[i],
                spec_chunk(data, bs, i),
            ))
    }

    /// Open a reader over a complete image.
    ///
    /// The header is validated (magic, version, codec id), the footer read
    /// for the index offset, and the whole block index loaded. An image too
    /// short for any of those reads, or whose index sums overflow a u64,
    /// fails as a truncated store.
    pub fn open(image: Vec<u8>, codec: C) -> (r: Result<Reader<C>, AncfError>)
        ensures
            (image@.len() < HEADER_SIZE ==> r == Err::<Reader<C>, AncfError>(AncfError::Io)),
            (image@.len() >= HEADER_SIZE && image@.subrange(0, 14) != spec_magic() ==> r
                == Err::<Reader<C>, AncfError>(AncfError::InvalidMagic)),
            (image@.len() >= HEADER_SIZE && image@.subrange(0, 14) == spec_magic()
                ==> spec_open_checks(image@, codec, r)),
    {
        let len = image.len();
        if len < HEADER_SIZE as usize {
            return Err(AncfError::Io);
        }
        proof {
            assert_seqs_equal!(
                image@.subrange(0, HEADER_SIZE as int).subrange(0, 14) == image@.subrange(0, 14));
        }
        let header = match Ancf1Header::from_bytes(
            slice_subrange(image.as_slice(), 0, HEADER_SIZE as usize),
        ) {
            Ok(h) => h,
            Err(e) => {
                return Err(e);
            },
        };
        if header.version != 1 {
            return Err(AncfError::UnsupportedVersion);
        }
        if header.codec_id != codec.id() {
            return Err(AncfError::CodecMismatch);
        }
        let index_offset = u64_from_le_bytes(slice_subrange(image.as_slice(), len - 8, len));
        let len64 = len as u64;
        if index_offset > len64 {
            return Err(AncfError::Io);
        }
        let avail = len64 - index_offset;
        let n64 = header.block_count;
        if n64 > avail / 32 {
            proof {
                crate::model::lemma_div_bounds(avail as int, 32);
                assert(32 * (n64 as int) >= 32 * (avail as int / 32 + 1)) by (nonlinear_arith)
                    requires n64 as int >= avail as int / 32 + 1
                {
                }
            }
            return Err(AncfError::Io);
        }
        let n_usize = n64 as usize;
        let ghost parsed = spec_parse_entries(image@, index_offset as int, n64 as int);
        let mut entries: Vec<BlockEntry> = Vec::new();
        let mut raw_total: u64 = 0;
        let mut comp_total: u64 = 0;
        let mut i: usize = 0;
        proof {
            crate::model::lemma_mul_div_le(n64 as int, avail as int, 32);
        }
        while i < n_usize
            invariant
                i <= n_usize,
                n_usize == n64,
                parsed == spec_parse_entries(image@, index_offset as int, n64 as int),
                parsed.len() == n64,
                index_offset + 32 * (n64 as int) <= image@.len(),
                image@.len() <= u64::MAX,
                image@.len() <= usize::MAX,
                entries@ == parsed.subrange(0, i as int),
                raw_total == spec_sum_raw(entries@),
                comp_total == spec_sum_comp(entries@),
                image@.len() >= HEADER_SIZE,
                image@.subrange(0, 14) == spec_magic(),
                header == spec_header_decode(image@.subrange(0, HEADER_SIZE as int)),
                header.version == 1,
                header.codec_id == codec.spec_id(),
                index_offset == spec_u64_from_le_bytes(
                    image@.subrange(image@.len() - 8, image@.len() as int),
                ),
                n64 == header.block_count,
            decreases n_usize - i,
        {
            proof {
                vstd::arithmetic::mul::lemma_mul_is_commutative(i as int, 32);
                vstd::arithmetic::mul::lemma_mul_is_commutative(n64 as int, 32);
                assert(32 * (i as int) + 32 <= 32 * (n64 as int)) by (nonlinear_arith)
                    requires i < n64
                {
                }
                assert(index_offset + (i as int) * 32 + 32 <= image@.len());
            }
            let off = (index_offset + (i as u64) * 32) as usize;
            let e = match BlockEntry::from_bytes(
                slice_subrange(image.as_slice(), off, off + BLOCK_ENTRY_SIZE as usize),
            ) {
                Ok(e) => e,
                Err(_) => {
                    proof {
                        assert(false);
                    }
                    return Err(AncfError::Io);
                },
            };
            proof {
                assert(parsed[i as int] == e);
            }
            raw_total = match raw_total.checked_add(e.raw_len as u64) {
                Some(v) => v,
                None => {
                    proof {
                        crate::model::lemma_sum_raw_take_step(parsed, i as int);
                        crate::model::lemma_sum_raw_prefix(parsed, i as int + 1);
                    }
                    return Err(AncfError::Io);
                },
            };
            comp_total = match comp_total.checked_add(
                e.compressed_len as u64 + e.metadata_len as u64,
            ) {
                Some(v) => v,
                None => {
                    proof {
                        crate::model::lemma_sum_comp_take_step(parsed, i as int);
                        crate::model::lemma_sum_comp_prefix(parsed, i as int + 1);
                    }
                    return Err(AncfError::Io);
                },
            };
            entries.push(e);
            i += 1;
            proof {
                crate::model::lemma_sum_raw_take_step(parsed, i as int - 1);
                crate::model::lemma_sum_comp_take_step(parsed, i as int - 1);
                assert_seqs_equal!(entries@ == parsed.subrange(0, i as int));
            }
        }
        proof {
            assert_seqs_equal!(parsed.subrange(0, n64 as int) == parsed);
        }
        Ok(Reader { image, header, entries, codec, raw_total, comp_total })
    }

    /// Total number of blocks in the image.
    pub fn block_count(&self) -> (r: u64)
        ensures
            r == self.spec_header().block_count,
    {
        self.header.block_count
    }

    /// Nominal raw bytes per block (the last block may be smaller).
    pub fn block_size(&self) -> (r: u32)
        ensures
            r == self.spec_header().block_size,
    {
        self.header.block_size
    }

    /// The parsed header.
    pub fn header(&self) -> (r: Ancf1Header)
        ensures
            r == self.spec_header(),
    {
        self.header
    }

    /// Total uncompressed size of all blocks in bytes.
    pub fn raw_size(&self) -> (r: u64)
        requires
            self.wf(),
        ensures
            r as int == spec_sum_raw(self.spec_entries()),
    {
        self.raw_total
    }

    /// Total compressed size of all blocks in bytes, metadata sidecars
    /// included, header, index and footer excluded.
    pub fn compressed_size(&self) -> (r: u64)
        requires
            self.wf(),
        ensures
            r as int == spec_sum_comp(self.spec_entries()),
    {
        self.comp_total
    }

    /// Borrow the loaded block index, for inspection.
    pub fn entries(&self) -> (r: &Vec<BlockEntry>)
        ensures
            r@ == self.spec_entries(),
    {
        &self.entries
    }

    /// Decompress and return the raw bytes of block `idx`.
    ///
    /// Only the bytes stored for that one block are touched; no other
    /// block is read or decoded. A failure leaves the reader untouched
    /// and later calls for other blocks unaffected.
    pub fn read_block(&self, idx: u64) -> (r: Result<Vec<u8>, AncfError>)
        ensures
            (idx >= self.spec_entries().len() ==> r == Err::<Vec<u8>, AncfError>(
                AncfError::OutOfRange,
            )),
            (idx < self.spec_entries().len() ==> (match spec_read_block(
                self.spec_image(),
                self.spec_codec(),
                self.spec_header().flags,
                self.spec_entries()[idx as int],
            ) {
                Ok(s) => r matches Ok(v) && v@ == s,
                Err(e) => r == Err::<Vec<u8>, AncfError>(e),
            })),
    {
        if idx >= self.entries.len() as u64 {
            return Err(AncfError::OutOfRange);
        }
        let e = *vstd::slice::slice_index_get(self.entries.as_slice(), idx as usize);
        let ilen64 = self.image.len() as u64;
        if e.metadata_len > 0 {
            if e.offset > ilen64 || ilen64 - e.offset < 2 {
                return Err(AncfError::Io);
            }
            let off_usize = e.offset as usize;
            let prefix = u16_from_le_bytes(
                slice_subrange(self.image.as_slice(), off_usize, off_usize + 2),
            );
            if prefix != e.metadata_len {
                return Err(AncfError::MetadataLenMismatch);
            }
        }
        let pre: u64 = if e.metadata_len > 0 {
            2 + e.metadata_len as u64
        } else {
            0
        };
        let stored: u64 = pre + e.compressed_len as u64;
        if e.offset > ilen64 || ilen64 - e.offset < stored {
            return Err(AncfError::Io);
        }
        let ps = (e.offset + pre) as usize;
        let pe = ps + e.compressed_len as usize;
        let payload = slice_subrange(self.image.as_slice(), ps, pe);
        proof {
            assert(payload@ == spec_payload_of(self.spec_image(), e));
        }
        if self.header.has_flag(FLAG_HAS_CHECKSUM) {
            let computed = xxh3_checksum(payload);
            if computed != e.checksum {
                return Err(AncfError::ChecksumMismatch);
            }
        }
        let sidecar: Vec<u8> = if e.metadata_len > 0 {
            let so = (e.offset + 2) as usize;
            slice_to_vec(slice_subrange(self.image.as_slice(), so, so + e.metadata_len as usize))
        } else {
            Vec::new()
        };
        proof {
            assert(sidecar@ == spec_sidecar_of(self.spec_image(), e));
        }
        let meta = BlockMeta { sidecar };
        let raw = match self.codec.decompress_block(payload, &meta) {
            Ok(v) => v,
            Err(err) => {
                return Err(err);
            },
        };
        if raw.len() as u64 != e.raw_len as u64 {
            return Err(AncfError::SizeMismatch);
        }
        Ok(raw)
    }

    /// Reading a block depends on that block's stored bytes alone: whenever
    /// block `i` recovers `chunk` — whatever is stored for any other block —
    /// reading it yields exactly `chunk`.
    pub proof fn lemma_read_block_of_recovered(self, chunk: Seq<u8>, i: int)
        requires
            0 <= i < self.spec_entries().len(),
            spec_block_recovers(
                self.spec_image(),
                self.spec_codec(),
                self.spec_entries()[i],
                chunk,
            ),
        ensures
            spec_read_block(
                self.spec_image(),
                self.spec_codec(),
                self.spec_header().flags,
                self.spec_entries()[i],
            ) == Ok::<Seq<u8>, AncfError>(chunk),
    {
        let e = self.spec_entries()[i];
        vstd::bytes::lemma_auto_spec_u16_to_from_le_bytes();
        assert(vstd::bytes::spec_u16_to_le_bytes(e.metadata_len).len() == 2);
    }

    /// Block independence: on an image that carries `data`, reading any
    /// block `i` on its own yields exactly chunk `i` of `data` — the bytes
    /// `data[i * block_size .. min((i + 1) * block_size, data.len())]` —
    /// with no other block involved.
    pub proof fn lemma_read_block_of_valid(self, data: Seq<u8>, i: int)
        requires
            self.valid_data(data),
            0 <= i < self.spec_entries().len(),
        ensures
            spec_read_block(
                self.spec_image(),
                self.spec_codec(),
                self.spec_header().flags,
                self.spec_entries()[i],
            ) == Ok::<Seq<u8>, AncfError>(
                spec_chunk(data, self.spec_header().block_size as int, i),
            ),
    {
        let bs = self.spec_header().block_size as int;
        assert(spec_block_recovers(
            self.spec_image(),
            self.spec_codec(),
            self.spec_entries()[i],
            spec_chunk(data, bs, i),
        ));
        self.lemma_read_block_of_recovered(spec_chunk(data, bs, i), i);
    }

    /// A corrupted block does not poison the rest: let this reader carry
    /// `data`, and let `tampered` be a reader over the same index, header
    /// and codec whose image differs only within block `i`'s stored region.
    /// Every block other than `i` still reads back exactly as its chunk of
    /// `data`. (Whether block `i` itself fails with a checksum mismatch
    /// depends on the digest of the altered payload; `lemma_checksum_enforced`
    /// covers the case where the digest differs.)
    pub proof fn lemma_tampered_block_isolated(
        self,
        tampered: Reader<C>,
        data: Seq<u8>,
        i: int,
        index_off: int,
    )
        requires
            self.valid_data(data),
            spec_entries_chained(self.spec_entries(), index_off),
            tampered.spec_entries() == self.spec_entries(),
            tampered.spec_header() == self.spec_header(),
            tampered.spec_codec() == self.spec_codec(),
            tampered.spec_image().len() == self.spec_image().len(),
            0 <= i < self.spec_entries().len(),
            forall|k: int|
                0 <= k < self.spec_image().len() && self.spec_image()[k] != (
                #[trigger] tampered.spec_image()[k]) ==> self.spec_entries()[i].offset <= k
                    < self.spec_entries()[i].offset + spec_stored_len(self.spec_entries()[i]),
        ensures
            forall|j: int|
                0 <= j < self.spec_entries().len() && j != i ==> #[trigger] spec_read_block(
                    tampered.spec_image(),
                    tampered.spec_codec(),
                    tampered.spec_header().flags,
                    tampered.spec_entries()[j],
                ) == Ok::<Seq<u8>, AncfError>(
                    spec_chunk(data, self.spec_header().block_size as int, j),
                ),
    {
        let n = self.spec_entries().len() as int;
        let bs = self.spec_header().block_size as int;
        let img = self.spec_image();
        let img2 = tampered.spec_image();
        assert forall|j: int| 0 <= j < n && j != i implies #[trigger] spec_read_block(
            tampered.spec_image(),
            tampered.spec_codec(),
            tampered.spec_header().flags,
            tampered.spec_entries()[j],
        ) == Ok::<Seq<u8>, AncfError>(spec_chunk(data, bs, j)) by {
            let e = self.spec_entries()[j];
            let chunk = spec_chunk(data, bs, j);
            assert(spec_block_recovers(img, self.spec_codec(), e, chunk));
            if j < i {
                crate::model::lemma_chained_regions_ordered(
                    self.spec_entries(),
                    index_off,
                    j,
                    i,
                );
            } else {
                crate::model::lemma_chained_regions_ordered(
                    self.spec_entries(),
                    index_off,
                    i,
                    j,
                );
            }
            let off = e.offset as int;
            let st = spec_stored_len(e);
            assert_seqs_equal!(
                img2.subrange(off, off + st) == img.subrange(off, off + st),
                u => {
                    assert(img2[off + u] == img[off + u]);
                }
            );
            crate::model::lemma_recovers_agree(img, img2, self.spec_codec(), e, chunk);
            tampered.lemma_read_block_of_recovered(chunk, j);
        }
    }

    /// Round-trip completeness: on an image that carries `data`, every
    /// block reads back successfully, and the chunks the blocks yield
    /// concatenate, in order, to exactly `data`.
    pub proof fn lemma_round_trip(self, data: Seq<u8>)
        requires
            self.valid_data(data),
        ensures
            forall|i: int|
                0 <= i < self.spec_entries().len() ==> #[trigger] spec_read_block(
                    self.spec_image(),
                    self.spec_codec(),
                    self.spec_header().flags,
                    self.spec_entries()[i],
                ) == Ok::<Seq<u8>, AncfError>(
                    spec_chunk(data, self.spec_header().block_size as int, i),
                ),
            spec_chunks_concat(
                data,
                self.spec_header().block_size as int,
                self.spec_entries().len() as int,
            ) == data,
    {
        let bs = self.spec_header().block_size as int;
        assert forall|i: int| 0 <= i < self.spec_entries().len() implies #[trigger] spec_read_block(
            self.spec_image(),
            self.spec_codec(),
            self.spec_header().flags,
            self.spec_entries()[i],
        ) == Ok::<Seq<u8>, AncfError>(spec_chunk(data, bs, i)) by {
            self.lemma_read_block_of_valid(data, i);
        }
        lemma_chunks_cover_data(data, bs);
    }

    /// Block count law: on an image that carries `data` with `data.len()`
    /// positive, the index holds exactly `ceil(data.len() / block_size)`
    /// entries; every entry before the last records a full block, and the
    /// last records the positive remainder.
    pub proof fn lemma_block_sizes(self, data: Seq<u8>)
        requires
            self.valid_data(data),
        ensures
            self.spec_entries().len() == spec_block_count(
                data.len() as int,
                self.spec_header().block_size as int,
            ),
            forall|i: int|
                0 <= i < self.spec_entries().len() - 1 ==> (#[trigger] self.spec_entries()[i].raw_len)
                    == self.spec_header().block_size,
            self.spec_entries().len() > 0 ==> self.spec_entries().last().raw_len == data.len() - (
            self.spec_entries().len() - 1) * self.spec_header().block_size,
    {
        let bs = self.spec_header().block_size as int;
        let n = self.spec_entries().len() as int;
        assert forall|i: int| 0 <= i < n - 1 implies (#[trigger] self.spec_entries()[i].raw_len)
            == self.spec_header().block_size by {
            assert(spec_block_recovers(
                self.spec_image(),
                self.spec_codec(),
                self.spec_entries()[i],
                spec_chunk(data, bs, i),
            ));
            lemma_chunk_len(data, bs, i);
        }
        if n > 0 {
            assert(spec_block_recovers(
                self.spec_image(),
                self.spec_codec(),
                self.spec_entries()[n - 1],
                spec_chunk(data, bs, n - 1),
            ));
            lemma_chunk_len(data, bs, n - 1);
        }
    }

    /// Checksum enforcement for a tampered payload: let this reader carry
    /// `data`, and let `tampered` be a reader over the same index, header
    /// and codec whose image differs only within block `i`'s compressed
    /// payload. If the altered payload's digest no longer matches the
    /// recorded checksum (the one fact no digest can promise of every
    /// mutation, left as a hypothesis here and checked at run time),
    /// reading block `i` fails with the checksum error — and every other
    /// block still reads back exactly as its chunk of `data`.
    pub proof fn lemma_tampered_payload_rejected(
        self,
        tampered: Reader<C>,
        data: Seq<u8>,
        i: int,
        index_off: int,
    )
        requires
            self.valid_data(data),
            spec_entries_chained(self.spec_entries(), index_off),
            tampered.spec_entries() == self.spec_entries(),
            tampered.spec_header() == self.spec_header(),
            tampered.spec_codec() == self.spec_codec(),
            tampered.spec_image().len() == self.spec_image().len(),
            0 <= i < self.spec_entries().len(),
            forall|k: int|
                0 <= k < self.spec_image().len() && self.spec_image()[k] != (
                #[trigger] tampered.spec_image()[k])
                    ==> crate::model::spec_payload_start(self.spec_entries()[i]) <= k
                    < crate::model::spec_payload_start(self.spec_entries()[i])
                    + self.spec_entries()[i].compressed_len,
            self.spec_header().flags & FLAG_HAS_CHECKSUM != 0,
            xxh3_64_of(spec_payload_of(tampered.spec_image(), self.spec_entries()[i]))
                != self.spec_entries()[i].checksum,
        ensures
            spec_read_block(
                tampered.spec_image(),
                tampered.spec_codec(),
                tampered.spec_header().flags,
                tampered.spec_entries()[i],
            ) == Err::<Seq<u8>, AncfError>(AncfError::ChecksumMismatch),
            forall|j: int|
                0 <= j < self.spec_entries().len() && j != i ==> #[trigger] spec_read_block(
                    tampered.spec_image(),
                    tampered.spec_codec(),
                    tampered.spec_header().flags,
                    tampered.spec_entries()[j],
                ) == Ok::<Seq<u8>, AncfError>(
                    spec_chunk(data, self.spec_header().block_size as int, j),
                ),
    {
        let e = self.spec_entries()[i];
        let img = self.spec_image();
        let img2 = tampered.spec_image();
        let off = e.offset as int;
        let bs = self.spec_header().block_size as int;
        assert(spec_block_recovers(img, self.spec_codec(), e, spec_chunk(data, bs, i)));
        // the payload lies within the block's stored region
        self.lemma_tampered_block_isolated(tampered, data, i, index_off);
        // the block's bounds and metadata prefix are untouched
        assert(e.offset + spec_stored_len(e) <= img2.len());
        if e.metadata_len > 0 {
            assert_seqs_equal!(
                img2.subrange(off, off + 2) == img.subrange(off, off + 2),
                u => {
                    assert(img2[off + u] == img[off + u]);
                }
            );
            vstd::bytes::lemma_auto_spec_u16_to_from_le_bytes();
            assert(vstd::bytes::spec_u16_to_le_bytes(e.metadata_len).len() == 2);
        }
        tampered.lemma_checksum_enforced(i);
    }

    /// Checksum enforcement: when the checksum flag is set and the stored
    /// checksum of a block differs from the xxh3-64 of its stored payload,
    /// reading that block fails with the checksum error, provided the block
    /// lies in bounds and its metadata prefix agrees with its entry.
    pub proof fn lemma_checksum_enforced(self, idx: int)
        requires
            0 <= idx < self.spec_entries().len(),
            self.spec_header().flags & FLAG_HAS_CHECKSUM != 0,
            self.spec_entries()[idx].offset + spec_stored_len(self.spec_entries()[idx])
                <= self.spec_image().len(),
            self.spec_entries()[idx].metadata_len > 0 ==> spec_u16_from_le_bytes(
                self.spec_image().subrange(
                    self.spec_entries()[idx].offset as int,
                    self.spec_entries()[idx].offset + 2,
                ),
            ) == self.spec_entries()[idx].metadata_len,
            xxh3_64_of(spec_payload_of(self.spec_image(), self.spec_entries()[idx]))
                != self.spec_entries()[idx].checksum,
        ensures
            spec_read_block(
                self.spec_image(),
                self.spec_codec(),
                self.spec_header().flags,
                self.spec_entries()[idx],
            ) == Err::<Seq<u8>, AncfError>(AncfError::ChecksumMismatch),
    {
    }

    /// Decompress and return the bytes of the logical range
    /// `[start, start + len)`, clamped to the end of the data.
    ///
    /// Only the blocks covering the range are read and decoded; how much
    /// is fetched depends on the range, never on the file's total size.
    pub fn read_range(&self, start: u64, len: u64) -> (r: Result<Vec<u8>, AncfError>)
        requires
            self.wf(),
            len == 0 || self.spec_header().block_size > 0,
        ensures
            (len == 0 ==> (r matches Ok(v) && v@ == Seq::<u8>::empty())),
            (len > 0 && start >= spec_sum_raw(self.spec_entries()) ==> r == Err::<
                Vec<u8>,
                AncfError,
            >(AncfError::OutOfRange)),
            (forall|data: Seq<u8>|
                (#[trigger] self.valid_data(data)) && len > 0 && (start as int) < data.len()
                    ==> (r matches Ok(v) && v@ == data.subrange(
                    start as int,
                    if start + len <= data.len() {
                        start as int + len as int
                    } else {
                        data.len() as int
                    },
                ))),
            (r matches Err(e) ==> (len > 0 && (start >= spec_sum_raw(self.spec_entries()) || (
            exists|bi: int|
                {
                    &&& start as int / self.spec_header().block_size as int <= bi
                    &&& 0 <= bi < self.spec_entries().len()
                    &&& #[trigger] spec_read_block(
                        self.spec_image(),
                        self.spec_codec(),
                        self.spec_header().flags,
                        self.spec_entries()[bi],
                    ) == Err::<Seq<u8>, AncfError>(e)
                }) || (self.spec_entries().len() <= (if start as int + len as int <= spec_sum_raw(
                self.spec_entries(),
            ) {
                start as int + len as int
            } else {
                spec_sum_raw(self.spec_entries())
            } - 1) / self.spec_header().block_size as int && e == AncfError::OutOfRange)))),
    {
        if len == 0 {
            return Ok(Vec::new());
        }
        let raw_total = self.raw_total;
        if start >= raw_total {
            return Err(AncfError::OutOfRange);
        }
        let sat = start.saturating_add(len);
        let end = if sat > raw_total {
            raw_total
        } else {
            sat
        };
        let bs64 = self.header.block_size as u64;
        let first = start / bs64;
        let last = (end - 1) / bs64;
        proof {
            lemma_div_bounds(start as int, bs64 as int);
            vstd::arithmetic::div_mod::lemma_div_is_ordered(
                start as int,
                end as int - 1,
                bs64 as int,
            );
        }
        let mut result: Vec<u8> = Vec::new();
        let mut b = first;
        while b <= last
            invariant
                self.wf(),
                bs64 == self.spec_header().block_size,
                bs64 > 0,
                len > 0,
                raw_total == spec_sum_raw(self.spec_entries()),
                start < end <= raw_total,
                end as int == (if start as int + len as int <= raw_total as int {
                    start as int + len as int
                } else {
                    raw_total as int
                }),
                first as int == start as int / bs64 as int,
                last as int == (end as int - 1) / bs64 as int,
                first <= b <= last + 1,
                (forall|data: Seq<u8>|
                    (#[trigger] self.valid_data(data)) && (start as int) < data.len()
                        ==> result@ == data.subrange(
                        start as int,
                        if b == first {
                            start as int
                        } else if (b as int) * (bs64 as int) <= end as int {
                            (b as int) * (bs64 as int)
                        } else {
                            end as int
                        },
                    )),
            decreases last - b + 1,
        {
            proof {
                lemma_mul_div_le(b as int, end as int - 1, bs64 as int);
            }
            let block = match self.read_block(b) {
                Ok(v) => v,
                Err(err) => {
                    proof {
                        assert forall|data: Seq<u8>| #[trigger]
                            self.valid_data(data) implies !((start as int) < data.len()) by {
                            if (start as int) < data.len() {
                                lemma_last_block_in_range(
                                    data.len() as int,
                                    bs64 as int,
                                    end as int,
                                );
                                self.lemma_read_block_of_valid(data, b as int);
                                assert(false);
                            }
                        }
                        if (b as int) < self.spec_entries().len() {
                            assert(spec_read_block(
                                self.spec_image(),
                                self.spec_codec(),
                                self.spec_header().flags,
                                self.spec_entries()[b as int],
                            ) == Err::<Seq<u8>, AncfError>(err));
                        }
                    }
                    return Err(err);
                },
            };
            let bstart = b * bs64;
            let s_lo64 = if start > bstart {
                start - bstart
            } else {
                0
            };
            let e_rel = end - bstart;
            let blen64 = block.len() as u64;
            let s_hi64 = if e_rel < blen64 {
                e_rel
            } else {
                blen64
            };
            let s_lo_c = if s_lo64 > s_hi64 {
                s_hi64
            } else {
                s_lo64
            };
            let ghost old_result = result@;
            result.extend_from_slice(
                slice_subrange(block.as_slice(), s_lo_c as usize, s_hi64 as usize),
            );
            proof {
                let bi = b as int;
                let bsi = bs64 as int;
                let endi = end as int;
                let bst = bi * bsi;
                assert forall|data: Seq<u8>|
                    (#[trigger] self.valid_data(data)) && (start as int)
                        < data.len() implies result@ == data.subrange(
                    start as int,
                    if b + 1 == first {
                        start as int
                    } else if (bi + 1) * bsi <= endi {
                        (bi + 1) * bsi
                    } else {
                        endi
                    },
                ) by {
                    let dlen = data.len() as int;
                    lemma_last_block_in_range(dlen, bsi, endi);
                    self.lemma_read_block_of_valid(data, bi);
                    lemma_chunk_len(data, bsi, bi);
                    vstd::arithmetic::mul::lemma_mul_is_distributive_add_other_way(bsi, bi, 1);
                    assert((bi + 1) * bsi == bst + bsi);
                    lemma_div_bounds(start as int, bsi);
                    lemma_div_bounds(endi - 1, bsi);
                    if b > first {
                        vstd::arithmetic::mul::lemma_mul_inequality(
                            first as int + 1,
                            bi,
                            bsi,
                        );
                        vstd::arithmetic::mul::lemma_mul_is_distributive_add_other_way(
                            bsi,
                            first as int,
                            1,
                        );
                    }
                    if b < last {
                        lemma_mul_div_le(bi + 1, endi - 1, bsi);
                    }
                    let chunk = spec_chunk(data, bsi, bi);
                    assert(block@ == chunk);
                    let hi_old = if b == first {
                        start as int
                    } else {
                        bst
                    };
                    let hi_new = if bst + bsi <= endi {
                        bst + bsi
                    } else {
                        endi
                    };
                    assert(old_result == data.subrange(start as int, hi_old));
                    assert(hi_old == bst + s_lo_c);
                    assert(hi_new == bst + s_hi64);
                    assert_seqs_equal!(
                        result@ == data.subrange(start as int, hi_new),
                        u => {
                            if u < hi_old - start {
                                assert(result@[u] == old_result[u]);
                            } else {
                                assert(result@[u] == block@[s_lo_c + (u - (hi_old - start))]);
                                assert(chunk[s_lo_c + (u - (hi_old - start))]
                                    == data[bst + s_lo_c + (u - (hi_old - start))]);
                            }
                        }
                    );
                }
            }
            b = b + 1;
        }
        proof {
            assert forall|data: Seq<u8>|
                (#[trigger] self.valid_data(data)) && (start as int)
                    < data.len() implies result@ == data.subrange(
                start as int,
                if start + len <= data.len() {
                    start as int + len as int
                } else {
                    data.len() as int
                },
            ) by {
                lemma_div_bounds(end as int - 1, bs64 as int);
            }
        }
        Ok(result)
    }
}

/// A sealed image passes every check in `open`: given `open`'s observable
/// behaviour on it, the result is a reader that carries the sealed data.
pub proof fn lemma_open_sealed<C: Codec>(
    image: Seq<u8>,
    codec: C,
    bs: u32,
    data: Seq<u8>,
    r: Result<Reader<C>, AncfError>,
)
    requires
        spec_sealed(image, codec, bs, data),
        (image.len() < HEADER_SIZE ==> r == Err::<Reader<C>, AncfError>(AncfError::Io)),
        (image.len() >= HEADER_SIZE && image.subrange(0, 14) != spec_magic() ==> r == Err::<
            Reader<C>,
            AncfError,
        >(AncfError::InvalidMagic)),
        (image.len() >= HEADER_SIZE && image.subrange(0, 14) == spec_magic() ==> spec_open_checks(
            image,
            codec,
            r,
        )),
    ensures
        r is Ok,
        (r matches Ok(rd) ==> {
            &&& rd.wf()
            &&& rd.valid_data(data)
            &&& rd.spec_image() == image
            &&& rd.spec_codec() == codec
            &&& rd.spec_header().version == 1
            &&& rd.spec_header().block_size == bs
            &&& rd.spec_header().block_count == spec_block_count(data.len() as int, bs as int)
            &&& rd.spec_header().flags == FLAG_HAS_CHECKSUM
            &&& spec_sum_raw(rd.spec_entries()) == data.len()
            &&& exists|io: int| spec_entries_chained(rd.spec_entries(), io)
        }),
{
    let (entries, index_off): (Seq<BlockEntry>, int) = choose|entries: Seq<BlockEntry>, index_off: int|
        spec_sealed_with(image, codec, bs, data, entries, index_off);
    let n = entries.len() as int;
    let hs = Ancf1Header {
        version: 1,
        codec_id: codec.spec_id(),
        block_size: bs,
        block_count: n as u64,
        flags: FLAG_HAS_CHECKSUM,
    };
    lemma_header_roundtrip(hs);
    if n > 0 {
        lemma_chained_offset_lb(entries, index_off, n - 1);
    }
    assert(index_off >= HEADER_SIZE);
    assert(image.subrange(0, HEADER_SIZE as int) == spec_header_bytes(hs));
    assert_seqs_equal!(
        image.subrange(0, 14) == image.subrange(0, HEADER_SIZE as int).subrange(0, 14));
    assert(spec_header_decode(image.subrange(0, HEADER_SIZE as int)) == hs);
    vstd::bytes::lemma_auto_spec_u64_to_from_le_bytes();
    assert(spec_u64_from_le_bytes(image.subrange(image.len() - 8, image.len() as int))
        == index_off as u64);
    lemma_block_count_bounds(data.len() as int, bs as int);
    if n > 0 {
        assert(n - 1 <= (n - 1) * (bs as int)) by (nonlinear_arith)
            requires
                bs >= 1,
                n >= 1,
        {
        }
    }
    assert(0 <= n <= u64::MAX);
    let parsed = spec_parse_entries(image, index_off, n);
    lemma_index_bytes_len(entries);
    assert forall|i: int| 0 <= i < n implies parsed[i] == entries[i] by {
        lemma_index_bytes_at(entries, i);
        lemma_entry_roundtrip(entries[i]);
        assert_seqs_equal!(image.subrange(index_off + 32 * i, index_off + 32 * i + 32)
            == image.subrange(index_off, index_off + 32 * n).subrange(32 * i, 32 * i + 32));
    }
    assert_seqs_equal!(parsed == entries);
    assert(spec_sum_raw(parsed) == data.len());
    assert(spec_sum_comp(parsed) <= u64::MAX);
    assert(r is Ok);
    if r is Ok {
        let rd = r->Ok_0;
        assert forall|i: int| 0 <= i < n implies #[trigger] spec_block_recovers(
            rd.spec_image(),
            rd.spec_codec(),
            rd.spec_entries()[i],
            spec_chunk(data, rd.spec_header().block_size as int, i),
        ) by {
            assert(spec_block_recovers(image, codec, entries[i], spec_chunk(data, bs as int, i)));
        }
        assert(rd.valid_data(data));
    }
}

/// Round-trip completeness, end to end: an image sealed around `data` (as
/// `Writer::finish` produces) opens successfully, every one of its blocks
/// reads back as the matching chunk of `data`, and the chunks concatenate,
/// in order, to exactly `data`.
pub proof fn lemma_write_then_read<C: Codec>(
    image: Seq<u8>,
    codec: C,
    bs: u32,
    data: Seq<u8>,
    r: Result<Reader<C>, AncfError>,
)
    requires
        spec_sealed(image, codec, bs, data),
        (image.len() < HEADER_SIZE ==> r == Err::<Reader<C>, AncfError>(AncfError::Io)),
        (image.len() >= HEADER_SIZE && image.subrange(0, 14) != spec_magic() ==> r == Err::<
            Reader<C>,
            AncfError,
        >(AncfError::InvalidMagic)),
        (image.len() >= HEADER_SIZE && image.subrange(0, 14) == spec_magic() ==> spec_open_checks(
            image,
            codec,
            r,
        )),
    ensures
        r is Ok,
        (r matches Ok(rd) ==> {
            &&& rd.valid_data(data)
            &&& rd.spec_entries().len() == spec_block_count(data.len() as int, bs as int)
            &&& (forall|i: int|
                0 <= i < rd.spec_entries().len() ==> #[trigger] spec_read_block(
                    rd.spec_image(),
                    rd.spec_codec(),
                    rd.spec_header().flags,
                    rd.spec_entries()[i],
                ) == Ok::<Seq<u8>, AncfError>(spec_chunk(data, bs as int, i)))
            &&& spec_chunks_concat(data, bs as int, rd.spec_entries().len() as int) == data
        }),
{
    lemma_open_sealed(image, codec, bs, data, r);
    if r is Ok {
        let rd = r->Ok_0;
        rd.lemma_round_trip(data);
    }
}

/// What `open` returns once the magic has matched: the version and codec
/// checks in order, then the footer and index reads, each failing exactly
/// when the image cannot satisfy it, and on success a well-formed reader
/// holding the parsed header and index.
pub open spec fn spec_open_checks<C: Codec>(
    image: Seq<u8>,
    codec: C,
    r: Result<Reader<C>, AncfError>,
) -> bool {
    let h = spec_header_decode(image.subrange(0, HEADER_SIZE as int));
    let index_off = spec_u64_from_le_bytes(image.subrange(image.len() - 8, image.len() as int));
    let n = h.block_count as int;
    let parsed = spec_parse_entries(image, index_off as int, n);
    if h.version != 1 {
        r == Err::<Reader<C>, AncfError>(AncfError::UnsupportedVersion)
    } else if h.codec_id != codec.spec_id() {
        r == Err::<Reader<C>, AncfError>(AncfError::CodecMismatch)
    } else if index_off + 32 * n > image.len() {
        r == Err::<Reader<C>, AncfError>(AncfError::Io)
    } else if spec_sum_raw(parsed) > u64::MAX || spec_sum_comp(parsed) > u64::MAX {
        r == Err::<Reader<C>, AncfError>(AncfError::Io)
    } else {
        &&& r is Ok
        &&& (r matches Ok(rd) ==> {
            &&& rd.wf()
            &&& rd.spec_image() == image
            &&& rd.spec_header() == h
            &&& rd.spec_entries() == parsed
            &&& rd.spec_codec() == codec
        })
    }
}

} // verus!
