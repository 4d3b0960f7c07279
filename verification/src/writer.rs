//! The streaming block writer: raw bytes in, a sealed ANCF1 image out.

use vstd::prelude::*;

use vstd::assert_seqs_equal;
use vstd::bytes::spec_u16_to_le_bytes;
use vstd::bytes::spec_u64_to_le_bytes;
use vstd::bytes::u16_to_le_bytes;
use vstd::bytes::u64_to_le_bytes;
use vstd::slice::slice_subrange;
use vstd::slice::slice_to_vec;

use crate::checksum::xxh3_64_of;
use crate::checksum::xxh3_checksum;
use crate::codec::BlockMeta;
use crate::codec::Codec;
use crate::error::AncfError;
use crate::format::Ancf1Header;
use crate::format::BlockEntry;
use crate::format::FLAG_HAS_CHECKSUM;
use crate::format::HEADER_SIZE;
use crate::model::lemma_block_count_bounds;
use crate::model::lemma_block_count_full_plus_tail;
use crate::model::lemma_chained_offset_lb;
use crate::model::lemma_entry_start_bounds;
use crate::model::lemma_entry_start_full;
use crate::model::lemma_entry_start_next;
use crate::model::lemma_entry_start_push;
use crate::model::lemma_index_bytes_len;
use crate::model::lemma_index_bytes_push;
use crate::model::lemma_recovers_agree;
use crate::model::lemma_subrange_at_append;
use crate::model::lemma_subrange_of_append;
use crate::model::lemma_sum_comp_push;
use crate::model::lemma_sum_raw_push;
use crate::model::spec_block_count;
use crate::model::spec_block_recovers;
use crate::model::spec_chunk;
use crate::model::spec_entries_chained;
use crate::model::spec_entry_start;
use crate::model::spec_index_bytes;
use crate::model::spec_sealed;
use crate::model::spec_sealed_with;
use crate::model::spec_stored_len;
use crate::model::spec_sum_comp;
use crate::model::spec_sum_raw;

verus! {

/// Remove and return the first `k` bytes of `v`.
fn take_front(v: &mut Vec<u8>, k: usize) -> (front: Vec<u8>)
    requires
        k <= old(v)@.len(),
    ensures
        front@ == old(v)@.subrange(0, k as int),
        final(v)@ == old(v)@.subrange(k as int, old(v)@.len() as int),
{
    let front = slice_to_vec(slice_subrange(v.as_slice(), 0, k));
    let len = v.len();
    let rest = slice_to_vec(slice_subrange(v.as_slice(), k, len));
    *v = rest;
    front
}

/// Streaming writer for ANCF1 images.
///
/// Call [`Writer::write`] any number of times with arbitrary-sized byte
/// slices; the writer accumulates data and compresses an independent block
/// whenever `block_size` raw bytes have gathered. Call [`Writer::finish`]
/// to flush any remaining partial block and seal the image: the blocks are
/// followed by the encoded block index, then an 8-byte footer holding the
/// index offset, and the final header is placed at the front.
pub struct Writer<C: Codec> {
    codec: C,
    block_size: u32,
    /// Raw bytes not yet flushed into a block.
    pending: Vec<u8>,
    /// In-memory block index, encoded into the image on `finish`.
    entries: Vec<BlockEntry>,
    /// The on-disk bytes of all flushed blocks, in file order; in the final
    /// image they sit directly after the header.
    body: Vec<u8>,
    /// The raw bytes already flushed into blocks.
    flushed: Ghost<Seq<u8>>,
}

impl<C: Codec> Writer<C> {
    /// The raw bytes handed to this writer so far.
    pub closed spec fn content(self) -> Seq<u8> {
        self.flushed@ + self.pending@
    }

    /// The nominal raw bytes per block.
    pub closed spec fn spec_block_size(self) -> u32 {
        self.block_size
    }

    /// The codec this writer compresses with.
    pub closed spec fn spec_codec(self) -> C {
        self.codec
    }

    /// The image as written so far: a zeroed placeholder header followed by
    /// the flushed blocks.
    closed spec fn vimage(self) -> Seq<u8> {
        Seq::new(HEADER_SIZE as nat, |i: int| 0u8) + self.body@
    }

    /// Structural invariant: sizes fit, the index entries chain one block
    /// after another behind the header, and each recorded block recovers
    /// its slice of the flushed raw bytes.
    closed spec fn inv(self) -> bool {
        let n = self.entries@.len() as int;
        &&& self.block_size > 0
        &&& self.flushed@.len() + self.pending@.len() <= u64::MAX
        &&& HEADER_SIZE + self.body@.len() <= u64::MAX
        &&& spec_sum_raw(self.entries@) == self.flushed@.len()
        &&& spec_sum_comp(self.entries@) <= self.body@.len()
        &&& spec_entries_chained(self.entries@, HEADER_SIZE + self.body@.len())
        &&& (forall|i: int|
            0 <= i < n ==> #[trigger] spec_block_recovers(
                self.vimage(),
                self.codec,
                self.entries@[i],
                self.flushed@.subrange(
                    spec_entry_start(self.entries@, i),
                    spec_entry_start(self.entries@, i) + self.entries@[i].raw_len,
                ),
            ))
    }

    /// Well-formedness between calls: the invariant, with less than a full
    /// block pending and every flushed block full.
    pub closed spec fn wf(self) -> bool {
        &&& self.inv()
        &&& self.pending@.len() < self.block_size
        &&& (forall|i: int|
            0 <= i < self.entries@.len() ==> (#[trigger] self.entries@[i].raw_len)
                == self.block_size)
    }

    /// The invariant does not depend on what is pending, beyond the total
    /// staying within a u64.
    proof fn lemma_inv_pending_irrelevant(a: Writer<C>, b: Writer<C>)
        requires
            a.inv(),
            b.codec == a.codec,
            b.block_size == a.block_size,
            b.entries@ == a.entries@,
            b.body@ == a.body@,
            b.flushed@ == a.flushed@,
            b.flushed@.len() + b.pending@.len() <= u64::MAX,
        ensures
            b.inv(),
    {
        assert(b.vimage() == a.vimage());
        assert forall|i: int| 0 <= i < b.entries@.len() implies #[trigger] spec_block_recovers(
            b.vimage(),
            b.codec,
            b.entries@[i],
            b.flushed@.subrange(
                spec_entry_start(b.entries@, i),
                spec_entry_start(b.entries@, i) + b.entries@[i].raw_len,
            ),
        ) by {
            assert(spec_block_recovers(
                a.vimage(),
                a.codec,
                a.entries@[i],
                a.flushed@.subrange(
                    spec_entry_start(a.entries@, i),
                    spec_entry_start(a.entries@, i) + a.entries@[i].raw_len,
                ),
            ));
        }
    }

    /// Create a writer for a fresh image. `block_size` is the nominal raw
    /// bytes per compressed block.
    pub fn create(codec: C, block_size: u32) -> (w: Writer<C>)
        requires
            block_size > 0,
        ensures
            w.wf(),
            w.content() == Seq::<u8>::empty(),
            w.spec_block_size() == block_size,
            w.spec_codec() == codec,
    {
        let w = Writer {
            codec,
            block_size,
            pending: Vec::new(),
            entries: Vec::new(),
            body: Vec::new(),
            flushed: Ghost(Seq::empty()),
        };
        proof {
            assert_seqs_equal!(w.content() == Seq::<u8>::empty());
        }
        w
    }

    /// Compress `raw` as one block, append its stored form to the body, and
    /// record its index entry.
    #[verifier::rlimit(100)]
    fn flush_block(&mut self, raw: &[u8]) -> (r: Result<(), AncfError>)
        requires
            old(self).inv(),
            0 < raw@.len() <= old(self).block_size,
            old(self).flushed@.len() + raw@.len() + old(self).pending@.len() <= u64::MAX,
        ensures
            final(self).block_size == old(self).block_size,
            final(self).codec == old(self).codec,
            final(self).pending@ == old(self).pending@,
            (r is Ok ==> final(self).inv()),
            (r is Ok ==> final(self).flushed@ == old(self).flushed@ + raw@),
            (r is Ok ==> final(self).entries@.len() == old(self).entries@.len() + 1),
            (r is Ok ==> (forall|i: int|
                0 <= i < old(self).entries@.len() ==> final(self).entries@[i] == old(
                    self,
                ).entries@[i])),
            (r is Ok ==> final(self).entries@.last().raw_len == raw@.len()),
            (r matches Err(e) ==> ((e == AncfError::CodecError || e == AncfError::Io)
                && *final(self) == *old(self))),
    {
        let mut meta = BlockMeta::default();
        let compressed = match self.codec.compress_block(raw, &mut meta) {
            Ok(c) => c,
            Err(e) => {
                return Err(e);
            },
        };
        let ghost sidecar = meta.sidecar@;
        let checksum = xxh3_checksum(compressed.as_slice());
        let mlen_usize = meta.sidecar.len();
        let metadata_len = mlen_usize as u16;
        let clen_usize = compressed.len();
        if clen_usize as u64 > u32::MAX as u64 {
            return Err(AncfError::CodecError);
        }
        let compressed_len = clen_usize as u32;
        let stored: u64 = (if metadata_len > 0 {
            2 + mlen_usize as u64
        } else {
            0
        }) + clen_usize as u64;
        let body_len = self.body.len();
        let block_offset = HEADER_SIZE + body_len as u64;
        if stored > u64::MAX - block_offset {
            return Err(AncfError::Io);
        }
        let ghost oldw = *old(self);
        let ghost old_body = self.body@;
        if metadata_len > 0 {
            let mut prefix = u16_to_le_bytes(metadata_len);
            self.body.append(&mut prefix);
            self.body.append(&mut meta.sidecar);
        }
        let ghost mid_body = self.body@;
        let ghost ccopy = compressed@;
        let mut compressed = compressed;
        self.body.append(&mut compressed);
        let e = BlockEntry {
            offset: block_offset,
            compressed_len,
            raw_len: raw.len() as u32,
            checksum,
            metadata_len,
        };
        self.entries.push(e);
        self.flushed = Ghost(self.flushed@ + raw@);
        proof {
            let olde = oldw.entries@;
            let newe = self.entries@;
            let n0 = olde.len() as int;
            let pad = Seq::new(HEADER_SIZE as nat, |i: int| 0u8);
            let vold = oldw.vimage();
            let vnew = self.vimage();
            // the appended on-disk bytes of this block
            let metabytes: Seq<u8> = if metadata_len > 0 {
                spec_u16_to_le_bytes(metadata_len) + sidecar
            } else {
                Seq::<u8>::empty()
            };
            assert(spec_stored_len(e) == stored);
            assert_seqs_equal!(mid_body == old_body + metabytes);
            assert(self.body@ == mid_body + ccopy);
            // chaining
            lemma_sum_raw_push(olde, e);
            lemma_sum_comp_push(olde, e);
            assert(newe == olde.push(e));
            assert(spec_entries_chained(newe, HEADER_SIZE + self.body@.len()));
            // the new image extends the old one
            assert_seqs_equal!(vnew == vold + (metabytes + ccopy));
            // prior blocks still recover their slices
            assert forall|i: int| 0 <= i < n0 implies #[trigger] spec_block_recovers(
                vnew,
                self.codec,
                newe[i],
                self.flushed@.subrange(
                    spec_entry_start(newe, i),
                    spec_entry_start(newe, i) + newe[i].raw_len,
                ),
            ) by {
                lemma_entry_start_push(olde, e, i);
                lemma_entry_start_bounds(olde, i);
                let lo = spec_entry_start(olde, i);
                let hi = lo + olde[i].raw_len;
                lemma_subrange_of_append(oldw.flushed@, raw@, lo, hi);
                assert(self.flushed@.subrange(lo, hi) == oldw.flushed@.subrange(lo, hi));
                let off = olde[i].offset as int;
                let st = spec_stored_len(olde[i]);
                assert(spec_block_recovers(
                    vold,
                    oldw.codec,
                    olde[i],
                    oldw.flushed@.subrange(lo, hi),
                ));
                assert(off + st <= vold.len());
                assert(0 <= off) by {
                    lemma_chained_offset_lb(olde, HEADER_SIZE + old_body.len(), i);
                }
                lemma_subrange_of_append(vold, metabytes + ccopy, off, off + st);
                lemma_recovers_agree(
                    vold,
                    vnew,
                    self.codec,
                    olde[i],
                    oldw.flushed@.subrange(lo, hi),
                );
            }
            // the new block recovers the raw bytes just flushed
            let off = block_offset as int;
            let vmid = pad + mid_body;
            assert_seqs_equal!(vnew == vmid + ccopy);
            assert(vmid.len() == off + (if metadata_len > 0 {
                2 + metadata_len as int
            } else {
                0
            }));
            lemma_subrange_at_append(vmid, ccopy);
            assert(crate::model::spec_payload_of(vnew, e) == ccopy);
            if metadata_len > 0 {
                let vpre = pad + old_body + spec_u16_to_le_bytes(metadata_len);
                lemma_auto_u16_len();
                assert_seqs_equal!(vnew ==
                    (pad + old_body) + spec_u16_to_le_bytes(metadata_len) + sidecar + ccopy);
                // metadata prefix bytes
                lemma_subrange_at_append(pad + old_body, spec_u16_to_le_bytes(metadata_len));
                assert((pad + old_body + spec_u16_to_le_bytes(metadata_len)).subrange(
                    off,
                    off + 2,
                ) == spec_u16_to_le_bytes(metadata_len));
                lemma_subrange_of_append(
                    pad + old_body + spec_u16_to_le_bytes(metadata_len),
                    sidecar,
                    off,
                    off + 2,
                );
                lemma_subrange_of_append(
                    pad + old_body + spec_u16_to_le_bytes(metadata_len) + sidecar,
                    ccopy,
                    off,
                    off + 2,
                );
                assert_seqs_equal!(
                    (pad + old_body + spec_u16_to_le_bytes(metadata_len) + sidecar) + ccopy
                        == vnew);
                assert(vnew.subrange(off, off + 2) == spec_u16_to_le_bytes(metadata_len));
                // sidecar bytes
                lemma_subrange_at_append(
                    pad + old_body + spec_u16_to_le_bytes(metadata_len),
                    sidecar,
                );
                lemma_subrange_of_append(
                    pad + old_body + spec_u16_to_le_bytes(metadata_len) + sidecar,
                    ccopy,
                    off + 2,
                    off + 2 + metadata_len as int,
                );
                assert(crate::model::spec_sidecar_of(vnew, e) == sidecar);
            } else {
                assert(sidecar.len() == 0);
                assert_seqs_equal!(crate::model::spec_sidecar_of(vnew, e) == sidecar);
            }
            let lo = spec_entry_start(newe, n0);
            lemma_entry_start_push(olde, e, n0);
            assert_seqs_equal!(olde.subrange(0, n0) == olde);
            assert(lo == oldw.flushed@.len());
            lemma_subrange_at_append(oldw.flushed@, raw@);
            assert(self.flushed@.subrange(lo, lo + e.raw_len) == raw@);
            assert(spec_block_recovers(
                vnew,
                self.codec,
                e,
                self.flushed@.subrange(lo, lo + e.raw_len),
            ));
            assert(self.inv());
        }
        Ok(())
    }

    /// Buffer `data`, compressing and recording a block for each full
    /// `block_size` bytes gathered. On a codec failure the image is
    /// indeterminate and the writer must be discarded.
    pub fn write(&mut self, data: &[u8]) -> (r: Result<(), AncfError>)
        requires
            old(self).wf(),
            old(self).content().len() + data@.len() <= u64::MAX,
        ensures
            final(self).spec_block_size() == old(self).spec_block_size(),
            final(self).spec_codec() == old(self).spec_codec(),
            (r is Ok ==> final(self).wf()),
            (r is Ok ==> final(self).content() == old(self).content() + data@),
            (r matches Err(e) ==> e == AncfError::CodecError || e == AncfError::Io),
            (old(self).content().len() as int % (old(self).spec_block_size() as int)
                + data@.len() < old(self).spec_block_size() ==> r is Ok),
    {
        self.pending.extend_from_slice(data);
        let ghost target = self.flushed@ + self.pending@;
        let ghost no_flush = old(self).content().len() as int % (
        old(self).spec_block_size() as int) + data@.len() < old(self).spec_block_size();
        proof {
            assert_seqs_equal!(target == old(self).content() + data@);
            Self::lemma_inv_pending_irrelevant(*old(self), *self);
            // when less than a block is gathered in total, nothing is
            // flushed: the pending tail is exactly the content modulo the
            // block size
            let olde = old(self).entries@;
            let n0 = olde.len() as int;
            let bs = old(self).block_size as int;
            let t = old(self).pending@.len() as int;
            lemma_entry_start_full(olde, bs, n0);
            assert_seqs_equal!(olde.subrange(0, n0) == olde);
            assert(old(self).flushed@.len() == n0 * bs);
            vstd::arithmetic::mul::lemma_mul_is_commutative(n0, bs);
            vstd::arithmetic::div_mod::lemma_mod_multiples_vanish(n0, t, bs);
            vstd::arithmetic::div_mod::lemma_small_mod(t as nat, bs as nat);
            assert(old(self).content().len() as int % bs == t);
            assert(no_flush ==> target.len() < old(self).flushed@.len()
                + old(self).block_size);
        }
        while self.pending.len() >= self.block_size as usize
            invariant
                self.inv(),
                self.pending@.len() >= 0,
                (forall|i: int|
                    0 <= i < self.entries@.len() ==> (#[trigger] self.entries@[i].raw_len)
                        == self.block_size),
                self.flushed@ + self.pending@ == target,
                target.len() <= u64::MAX,
                self.block_size == old(self).block_size,
                self.codec == old(self).codec,
                old(self).flushed@.len() <= self.flushed@.len(),
                no_flush == (old(self).content().len() as int % (
                old(self).spec_block_size() as int) + data@.len() < old(
                    self,
                ).spec_block_size()),
                (no_flush ==> target.len() < old(self).flushed@.len() + self.block_size),
            decreases self.pending@.len(),
        {
            proof {
                if no_flush {
                    assert(target.len() >= self.flushed@.len() + self.block_size);
                    assert(false);
                }
            }
            let bs_usize = self.block_size as usize;
            let ghost pend0 = self.pending@;
            let ghost before = *self;
            let raw = take_front(&mut self.pending, bs_usize);
            proof {
                assert_seqs_equal!(raw@ + self.pending@ == pend0);
                assert(self.flushed@.len() + raw@.len() + self.pending@.len() == target.len());
                Self::lemma_inv_pending_irrelevant(before, *self);
            }
            match self.flush_block(raw.as_slice()) {
                Ok(()) => {},
                Err(e) => {
                    return Err(e);
                },
            }
            proof {
                assert_seqs_equal!(self.flushed@ + self.pending@ == target);
            }
        }
        Ok(())
    }

    /// Flush any remaining partial block, append the encoded block index
    /// and the footer, and seal the image with the final header. Returns
    /// the finished image and the number of blocks written.
    #[verifier::rlimit(100)]
    pub fn finish(self) -> (r: Result<(Vec<u8>, u64), AncfError>)
        requires
            self.wf(),
        ensures
            (r matches Ok(p) ==> spec_sealed(
                p.0@,
                self.spec_codec(),
                self.spec_block_size(),
                self.content(),
            )),
            (r matches Ok(p) ==> p.1 as int == spec_block_count(
                self.content().len() as int,
                self.spec_block_size() as int,
            )),
            (r matches Err(e) ==> e == AncfError::CodecError || e == AncfError::Io),
            (self.content().len() as int % (self.spec_block_size() as int) == 0 ==> r is Ok),
    {
        let mut w = self;
        let ghost data = w.flushed@ + w.pending@;
        let ghost bs = w.block_size as int;
        let ghost n0 = w.entries@.len() as int;
        let ghost t = w.pending@.len() as int;
        proof {
            lemma_entry_start_full(w.entries@, bs, n0);
            assert_seqs_equal!(w.entries@.subrange(0, n0) == w.entries@);
            assert(w.flushed@.len() == n0 * bs);
            // the pending tail is the content modulo the block size, so an
            // exact multiple leaves nothing to flush and nothing can fail
            vstd::arithmetic::mul::lemma_mul_is_commutative(n0, bs);
            vstd::arithmetic::div_mod::lemma_mod_multiples_vanish(n0, t, bs);
            vstd::arithmetic::div_mod::lemma_small_mod(t as nat, bs as nat);
            assert(self.content().len() as int % bs == t);
        }
        if w.pending.len() > 0 {
            let pend_len = w.pending.len();
            let ghost before = w;
            let tail = take_front(&mut w.pending, pend_len);
            proof {
                assert_seqs_equal!(tail@ == before.pending@);
                assert_seqs_equal!(w.pending@ == Seq::<u8>::empty());
                Self::lemma_inv_pending_irrelevant(before, w);
            }
            match w.flush_block(tail.as_slice()) {
                Ok(()) => {},
                Err(e) => {
                    return Err(e);
                },
            }
        }
        proof {
            assert_seqs_equal!(w.flushed@ == data);
            assert_seqs_equal!(w.content() == data);
            lemma_block_count_full_plus_tail(n0, bs, t);
            assert(w.entries@.len() as int == spec_block_count(data.len() as int, bs));
        }
        let ghost w0 = w;
        let n_usize = w.entries.len();
        let block_count = n_usize as u64;
        let header = Ancf1Header {
            version: 1,
            codec_id: w.codec.id(),
            block_size: w.block_size,
            block_count,
            flags: FLAG_HAS_CHECKSUM,
        };
        let mut image = header.to_bytes();
        let ghost hdr_bytes = image@;
        let body_len = w.body.len();
        let index_offset = HEADER_SIZE + body_len as u64;
        image.append(&mut w.body);
        let ghost base = image@;
        let ghost entries = w0.entries@;
        let mut i: usize = 0;
        while i < n_usize
            invariant
                i <= n_usize,
                n_usize == entries.len(),
                w.entries@ == entries,
                image@ == base + spec_index_bytes(entries.subrange(0, i as int)),
            decreases n_usize - i,
        {
            let mut eb = w.entries[i].to_bytes();
            proof {
                lemma_index_bytes_push(entries.subrange(0, i as int), entries[i as int]);
                assert_seqs_equal!(
                    entries.subrange(0, i as int + 1)
                        == entries.subrange(0, i as int).push(entries[i as int]));
            }
            image.append(&mut eb);
            proof {
                assert_seqs_equal!(
                    image@ == base + spec_index_bytes(entries.subrange(0, i as int + 1)));
            }
            i += 1;
        }
        let ghost with_index = image@;
        let mut footer = u64_to_le_bytes(index_offset);
        image.append(&mut footer);
        proof {
            let io = index_offset as int;
            let n = n_usize as int;
            let codec = w0.codec;
            let body0 = w0.body@;
            let footer_bytes = spec_u64_to_le_bytes(index_offset);
            assert_seqs_equal!(entries.subrange(0, n) == entries);
            let idxbytes = spec_index_bytes(entries);
            lemma_index_bytes_len(entries);
            assert(with_index == base + idxbytes);
            assert(image@ == with_index + footer_bytes);
            assert(base == hdr_bytes + body0);
            crate::format::lemma_header_roundtrip(header);
            vstd::bytes::lemma_auto_spec_u64_to_from_le_bytes();
            lemma_image_layout(hdr_bytes, body0, idxbytes, footer_bytes, image@);
            assert(image@.len() == io + 32 * n + 8);
            assert(image@.subrange(0, HEADER_SIZE as int) == hdr_bytes);
            assert(image@.subrange(image@.len() - 8, image@.len() as int) == footer_bytes);
            assert(image@.subrange(io, io + 32 * n) == idxbytes);
            // every block recovers its chunk of the data
            let vimg = w0.vimage();
            let pad = Seq::new(HEADER_SIZE as nat, |i: int| 0u8);
            assert(vimg == pad + body0);
            assert(vimg.len() == io);
            assert forall|j: int| HEADER_SIZE <= j < io implies #[trigger] image@[j] == vimg[j] by {
                assert(image@[j] == body0[j - HEADER_SIZE]);
                assert((pad + body0)[j] == body0[j - HEADER_SIZE]);
            }
            assert forall|i: int| 0 <= i < n implies #[trigger] spec_block_recovers(
                vimg,
                codec,
                entries[i],
                data.subrange(
                    spec_entry_start(entries, i),
                    spec_entry_start(entries, i) + entries[i].raw_len,
                ),
            ) by {
                assert(spec_block_recovers(
                    w0.vimage(),
                    w0.codec,
                    w0.entries@[i],
                    w0.flushed@.subrange(
                        spec_entry_start(w0.entries@, i),
                        spec_entry_start(w0.entries@, i) + w0.entries@[i].raw_len,
                    ),
                ));
            }
            assert forall|i: int| 0 <= i < n - 1 implies (#[trigger] entries[i].raw_len)
                == bs by {
                if t > 0 {
                    assert(entries[i] == self.entries@[i]);
                } else {
                    assert(entries[i].raw_len == self.block_size);
                }
            }
            lemma_blocks_recover_in_image(image@, vimg, codec, entries, data, bs, io);
            assert(spec_sealed_with(image@, codec, w0.block_size, data, entries, io));
            assert(spec_sealed(image@, codec, self.spec_block_size(), self.content()));
        }
        Ok((image, block_count))
    }
}

/// Two little-endian bytes encode any u16.
proof fn lemma_auto_u16_len()
    ensures
        forall|x: u16| (#[trigger] spec_u16_to_le_bytes(x)).len() == 2,
{
    vstd::bytes::lemma_auto_spec_u16_to_from_le_bytes();
}

/// How the four parts of a finished image line up: the header reads back at
/// the front, the index and footer at their offsets, and the body bytes at
/// their positions behind the header.
proof fn lemma_image_layout(
    hdr: Seq<u8>,
    body: Seq<u8>,
    idx: Seq<u8>,
    ftr: Seq<u8>,
    image: Seq<u8>,
)
    requires
        image == ((hdr + body) + idx) + ftr,
        hdr.len() == HEADER_SIZE,
    ensures
        image.len() == HEADER_SIZE + body.len() + idx.len() + ftr.len(),
        image.subrange(0, HEADER_SIZE as int) == hdr,
        image.subrange(
            HEADER_SIZE + body.len(),
            HEADER_SIZE + body.len() + idx.len(),
        ) == idx,
        image.subrange(
            HEADER_SIZE + body.len() + idx.len(),
            image.len() as int,
        ) == ftr,
        forall|j: int|
            HEADER_SIZE <= j < HEADER_SIZE + body.len() ==> #[trigger] image[j] == body[j
                - HEADER_SIZE],
{
    let base = hdr + body;
    let with_index = base + idx;
    lemma_subrange_of_append(hdr, body, 0, HEADER_SIZE as int);
    lemma_subrange_of_append(base, idx, 0, HEADER_SIZE as int);
    lemma_subrange_of_append(with_index, ftr, 0, HEADER_SIZE as int);
    assert_seqs_equal!(hdr.subrange(0, HEADER_SIZE as int) == hdr);
    lemma_subrange_at_append(base, idx);
    lemma_subrange_of_append(
        with_index,
        ftr,
        HEADER_SIZE + body.len(),
        HEADER_SIZE + body.len() + idx.len(),
    );
    lemma_subrange_at_append(with_index, ftr);
    assert forall|j: int|
        HEADER_SIZE <= j < HEADER_SIZE + body.len() implies #[trigger] image[j] == body[j
        - HEADER_SIZE] by {
        assert((hdr + body)[j] == body[j - HEADER_SIZE]);
        assert((base + idx)[j] == base[j]);
        assert((with_index + ftr)[j] == with_index[j]);
    }
}

/// Blocks recovered against the placeholder image are recovered against the
/// finished image, and each block's raw slice is exactly its chunk of the
/// data.
proof fn lemma_blocks_recover_in_image<C: Codec>(
    image: Seq<u8>,
    vimg: Seq<u8>,
    codec: C,
    entries: Seq<BlockEntry>,
    data: Seq<u8>,
    bs: int,
    io: int,
)
    requires
        bs > 0,
        vimg.len() == io,
        io <= image.len(),
        spec_entries_chained(entries, io),
        forall|j: int| HEADER_SIZE <= j < io ==> #[trigger] image[j] == vimg[j],
        entries.len() == spec_block_count(data.len() as int, bs),
        spec_sum_raw(entries) == data.len(),
        forall|i: int|
            0 <= i < entries.len() ==> #[trigger] spec_block_recovers(
                vimg,
                codec,
                entries[i],
                data.subrange(
                    spec_entry_start(entries, i),
                    spec_entry_start(entries, i) + entries[i].raw_len,
                ),
            ),
        forall|i: int|
            0 <= i < entries.len() - 1 ==> (#[trigger] entries[i].raw_len) == bs,
    ensures
        forall|k: int|
            0 <= k < entries.len() ==> #[trigger] spec_block_recovers(
                image,
                codec,
                entries[k],
                spec_chunk(data, bs, k),
            ),
{
    let n = entries.len() as int;
    lemma_block_count_bounds(data.len() as int, bs);
    assert forall|k: int| 0 <= k < n implies #[trigger] spec_block_recovers(
        image,
        codec,
        entries[k],
        spec_chunk(data, bs, k),
    ) by {
        let lo = spec_entry_start(entries, k);
        let hi = lo + entries[k].raw_len;
        lemma_entry_start_full(entries, bs, k);
        lemma_entry_start_bounds(entries, k);
        lemma_entry_start_next(entries, k);
        if k < n - 1 {
            lemma_entry_start_full(entries, bs, k + 1);
        } else {
            assert_seqs_equal!(entries.subrange(0, n) == entries);
            assert(spec_entry_start(entries, n) == data.len());
        }
        assert(spec_block_recovers(vimg, codec, entries[k], data.subrange(lo, hi)));
        assert_seqs_equal!(data.subrange(lo, hi) == spec_chunk(data, bs, k));
        let off = entries[k].offset as int;
        let st = spec_stored_len(entries[k]);
        lemma_chained_offset_lb(entries, io, k);
        assert(off + st <= vimg.len());
        assert_seqs_equal!(
            image.subrange(off, off + st) == vimg.subrange(off, off + st),
            u => {
                assert(image[off + u] == vimg[off + u]);
            }
        );
        lemma_recovers_agree(vimg, image, codec, entries[k], data.subrange(lo, hi));
    }
}

} // verus!
