//! The mathematical model of an ANCF1 image: where blocks sit on disk, how
//! raw data splits into chunks, what a complete sealed image looks like,
//! and the lemmas that connect them.

use vstd::prelude::*;

use vstd::arithmetic::div_mod::lemma_div_non_zero;
use vstd::arithmetic::div_mod::lemma_fundamental_div_mod;
use vstd::arithmetic::div_mod::lemma_fundamental_div_mod_converse;
use vstd::arithmetic::div_mod::lemma_mod_pos_bound;
use vstd::arithmetic::mul::lemma_mul_inequality;
use vstd::arithmetic::mul::lemma_mul_is_distributive_add_other_way;
use vstd::arithmetic::mul::lemma_mul_is_distributive_sub_other_way;
use vstd::arithmetic::mul::lemma_mul_nonnegative;
use vstd::assert_seqs_equal;
use vstd::bytes::spec_u16_to_le_bytes;
use vstd::bytes::spec_u64_to_le_bytes;

use crate::checksum::xxh3_64_of;
use crate::codec::Codec;
use crate::format::lemma_entry_roundtrip;
use crate::format::spec_entry_bytes;
use crate::format::spec_header_bytes;
use crate::format::Ancf1Header;
use crate::format::BlockEntry;
use crate::format::FLAG_HAS_CHECKSUM;
use crate::format::HEADER_SIZE;

verus! {

// ── where a block sits on disk ─────────────────────────────────────────────

/// Number of bytes the block of `e` occupies on disk: the optional 2-byte
/// metadata prefix and sidecar, then the compressed payload.
pub open spec fn spec_stored_len(e: BlockEntry) -> int {
    (if e.metadata_len > 0 {
        2 + e.metadata_len as int
    } else {
        0
    }) + e.compressed_len as int
}

/// File offset of the first byte of the compressed payload of `e`.
pub open spec fn spec_payload_start(e: BlockEntry) -> int {
    e.offset + (if e.metadata_len > 0 {
        2 + e.metadata_len as int
    } else {
        0
    })
}

/// The block described by `e` lies entirely within the image.
pub open spec fn spec_entry_in_bounds(image: Seq<u8>, e: BlockEntry) -> bool {
    e.offset + spec_stored_len(e) <= image.len()
}

/// The compressed payload bytes of `e` within the image.
pub open spec fn spec_payload_of(image: Seq<u8>, e: BlockEntry) -> Seq<u8> {
    image.subrange(spec_payload_start(e), spec_payload_start(e) + e.compressed_len)
}

/// The sidecar bytes of `e` within the image (empty when absent).
pub open spec fn spec_sidecar_of(image: Seq<u8>, e: BlockEntry) -> Seq<u8> {
    if e.metadata_len > 0 {
        image.subrange(e.offset + 2, e.offset + 2 + e.metadata_len)
    } else {
        Seq::empty()
    }
}

/// The stored block described by `e` recovers exactly the raw bytes
/// `chunk`: it lies in bounds, its metadata prefix (when present) restates
/// the entry's metadata length, its stored checksum is the xxh3-64 of its
/// payload, and the codec decodes payload and sidecar to `chunk`.
pub open spec fn spec_block_recovers<C: Codec>(
    image: Seq<u8>,
    codec: C,
    e: BlockEntry,
    chunk: Seq<u8>,
) -> bool {
    &&& spec_entry_in_bounds(image, e)
    &&& (e.metadata_len > 0 ==> image.subrange(e.offset as int, e.offset + 2)
        == spec_u16_to_le_bytes(e.metadata_len))
    &&& e.checksum == xxh3_64_of(spec_payload_of(image, e))
    &&& codec.spec_decode(spec_payload_of(image, e), spec_sidecar_of(image, e)) == Some(chunk)
    &&& e.raw_len == chunk.len()
}

// ── how raw data splits into blocks ────────────────────────────────────────

/// Number of blocks needed for `len` raw bytes at block size `bs`: the
/// ceiling of `len / bs`.
pub open spec fn spec_block_count(len: int, bs: int) -> int {
    (len + bs - 1) / bs
}

/// The raw bytes of block `i`: the i-th `bs`-sized chunk of `data`, clipped
/// at the end of `data`.
pub open spec fn spec_chunk(data: Seq<u8>, bs: int, i: int) -> Seq<u8> {
    data.subrange(
        i * bs,
        if (i + 1) * bs <= data.len() {
            (i + 1) * bs
        } else {
            data.len() as int
        },
    )
}

/// The concatenation of the raw chunks of blocks `0..k`.
pub open spec fn spec_chunks_concat(data: Seq<u8>, bs: int, k: int) -> Seq<u8>
    decreases k,
{
    if k <= 0 {
        Seq::empty()
    } else {
        spec_chunks_concat(data, bs, k - 1) + spec_chunk(data, bs, k - 1)
    }
}

// ── sums and the encoded index ─────────────────────────────────────────────

/// Sum of the raw lengths over a run of index entries.
pub open spec fn spec_sum_raw(entries: Seq<BlockEntry>) -> int
    decreases entries.len(),
{
    if entries.len() == 0 {
        0
    } else {
        spec_sum_raw(entries.drop_last()) + entries.last().raw_len
    }
}

/// Sum of compressed payload plus sidecar lengths over a run of entries.
pub open spec fn spec_sum_comp(entries: Seq<BlockEntry>) -> int
    decreases entries.len(),
{
    if entries.len() == 0 {
        0
    } else {
        spec_sum_comp(entries.drop_last()) + entries.last().compressed_len
            + entries.last().metadata_len
    }
}

/// The encoded block index: each entry's 32 bytes, densely packed in order.
pub open spec fn spec_index_bytes(entries: Seq<BlockEntry>) -> Seq<u8>
    decreases entries.len(),
{
    if entries.len() == 0 {
        Seq::empty()
    } else {
        spec_index_bytes(entries.drop_last()) + spec_entry_bytes(entries.last())
    }
}

// ── the sealed image ───────────────────────────────────────────────────────

/// Blocks sit contiguously: the first starts right after the header, each
/// next one right after the previous, and the index begins at `index_off`,
/// right after the last block.
pub open spec fn spec_entries_chained(entries: Seq<BlockEntry>, index_off: int) -> bool {
    &&& (entries.len() > 0 ==> entries[0].offset == HEADER_SIZE)
    &&& (forall|i: int|
        0 < i < entries.len() ==> (#[trigger] entries[i].offset) == entries[i - 1].offset
            + spec_stored_len(entries[i - 1]))
    &&& index_off == (if entries.len() == 0 {
        HEADER_SIZE as int
    } else {
        entries.last().offset + spec_stored_len(entries.last())
    })
}

/// A complete, well-formed ANCF1 image carrying `data` in blocks of nominal
/// size `bs`, written with index entries `entries` starting at `index_off`:
/// a version-1 header for `codec` with the checksum flag, the blocks packed
/// contiguously after it, each recovering its chunk of `data`, the encoded
/// index, and the footer pointing at the index.
pub open spec fn spec_sealed_with<C: Codec>(
    image: Seq<u8>,
    codec: C,
    bs: u32,
    data: Seq<u8>,
    entries: Seq<BlockEntry>,
    index_off: int,
) -> bool {
    let n = entries.len() as int;
    &&& bs > 0
    &&& data.len() <= u64::MAX
    &&& 0 <= index_off <= u64::MAX
    &&& n == spec_block_count(data.len() as int, bs as int)
    &&& image.len() == index_off + 32 * n + 8
    &&& image.subrange(0, HEADER_SIZE as int) == spec_header_bytes(
        Ancf1Header {
            version: 1,
            codec_id: codec.spec_id(),
            block_size: bs,
            block_count: n as u64,
            flags: FLAG_HAS_CHECKSUM,
        },
    )
    &&& image.subrange(image.len() - 8, image.len() as int) == spec_u64_to_le_bytes(
        index_off as u64,
    )
    &&& image.subrange(index_off, index_off + 32 * n) == spec_index_bytes(entries)
    &&& spec_entries_chained(entries, index_off)
    &&& spec_sum_raw(entries) == data.len()
    &&& spec_sum_comp(entries) <= u64::MAX
    &&& (forall|i: int|
        0 <= i < n ==> #[trigger] spec_block_recovers(
            image,
            codec,
            entries[i],
            spec_chunk(data, bs as int, i),
        ))
}

/// A complete, well-formed ANCF1 image carrying `data` in blocks of nominal
/// size `bs`, decodable by `codec`.
pub open spec fn spec_sealed<C: Codec>(image: Seq<u8>, codec: C, bs: u32, data: Seq<u8>) -> bool {
    exists|entries: Seq<BlockEntry>, index_off: int|
        spec_sealed_with(image, codec, bs, data, entries, index_off)
}

// ── arithmetic lemmas about block counts and chunks ────────────────────────

/// For a positive block size the block count is the least number of
/// `bs`-sized blocks that covers `len` bytes.
pub proof fn lemma_block_count_bounds(len: int, bs: int)
    requires
        bs > 0,
        len >= 0,
    ensures
        spec_block_count(len, bs) >= 0,
        (spec_block_count(len, bs) - 1) * bs < len,
        len <= spec_block_count(len, bs) * bs,
        len > 0 ==> spec_block_count(len, bs) >= 1,
        len == 0 ==> spec_block_count(len, bs) == 0,
{
    let n = spec_block_count(len, bs);
    lemma_fundamental_div_mod(len + bs - 1, bs);
    lemma_mod_pos_bound(len + bs - 1, bs);
    let r = (len + bs - 1) % bs;
    assert(len + bs - 1 == bs * n + r);
    lemma_mul_is_distributive_sub_other_way(bs, n, 1);
    assert((n - 1) * bs == n * bs - bs);
    if len == 0 {
        lemma_fundamental_div_mod_converse(bs - 1, bs, 0, bs - 1);
    }
    if len > 0 {
        lemma_div_non_zero(len + bs - 1, bs);
    }
}

/// With `k` full blocks of `bs` bytes and a tail of `t` bytes, the block
/// count is `k` when the tail is empty and `k + 1` otherwise.
pub proof fn lemma_block_count_full_plus_tail(k: int, bs: int, t: int)
    requires
        bs > 0,
        k >= 0,
        0 <= t < bs,
    ensures
        t == 0 ==> spec_block_count(k * bs, bs) == k,
        t > 0 ==> spec_block_count(k * bs + t, bs) == k + 1,
{
    lemma_mul_is_distributive_add_other_way(bs, k, 1);
    assert((k + 1) * bs == k * bs + 1 * bs);
    if t == 0 {
        lemma_fundamental_div_mod_converse(k * bs + bs - 1, bs, k, bs - 1);
    } else {
        lemma_fundamental_div_mod_converse(k * bs + t + bs - 1, bs, k + 1, t - 1);
    }
}

/// Where chunk `i` of `data` sits: every block before the last is exactly
/// `bs` bytes, the last is the positive remainder.
pub proof fn lemma_chunk_len(data: Seq<u8>, bs: int, i: int)
    requires
        bs > 0,
        0 <= i < spec_block_count(data.len() as int, bs),
    ensures
        0 <= i * bs < data.len(),
        i * bs + spec_chunk(data, bs, i).len() <= data.len(),
        spec_chunk(data, bs, i).len() == (if i == spec_block_count(data.len() as int, bs) - 1 {
            data.len() - i * bs
        } else {
            bs
        }),
        spec_chunk(data, bs, i).len() > 0,
        i < spec_block_count(data.len() as int, bs) - 1 ==> (i + 1) * bs <= data.len(),
{
    let len = data.len() as int;
    let n = spec_block_count(len, bs);
    lemma_block_count_bounds(len, bs);
    lemma_mul_nonnegative(i, bs);
    lemma_mul_inequality(i, n - 1, bs);
    assert(i * bs <= (n - 1) * bs);
    lemma_mul_is_distributive_sub_other_way(bs, i + 1, 1);
    assert(i * bs == (i + 1) * bs - bs);
    if i < n - 1 {
        lemma_mul_inequality(i + 1, n - 1, bs);
        assert((i + 1) * bs <= (n - 1) * bs);
    } else {
        assert(i == n - 1);
        lemma_mul_is_distributive_sub_other_way(bs, n, 1);
        assert((n - 1) * bs == n * bs - bs);
    }
}

/// The chunks of blocks `0..k` concatenate to the first `min(k * bs, len)`
/// bytes of `data`.
pub proof fn lemma_chunks_concat_prefix(data: Seq<u8>, bs: int, k: int)
    requires
        bs > 0,
        0 <= k <= spec_block_count(data.len() as int, bs),
    ensures
        spec_chunks_concat(data, bs, k) == data.subrange(
            0,
            if k * bs <= data.len() {
                k * bs
            } else {
                data.len() as int
            },
        ),
    decreases k,
{
    if k == 0 {
        assert(k * bs == 0) by (nonlinear_arith)
            requires k == 0
        {
        }
        assert_seqs_equal!(spec_chunks_concat(data, bs, 0) == data.subrange(0, 0));
    } else {
        lemma_chunks_concat_prefix(data, bs, k - 1);
        lemma_chunk_len(data, bs, k - 1);
        lemma_mul_is_distributive_sub_other_way(bs, k, 1);
        assert((k - 1) * bs == k * bs - bs);
        let hi = if k * bs <= data.len() {
            k * bs
        } else {
            data.len() as int
        };
        let prev = (k - 1) * bs;
        let head = spec_chunks_concat(data, bs, k - 1);
        let tail = spec_chunk(data, bs, k - 1);
        assert(head == data.subrange(0, prev));
        assert(tail == data.subrange(prev, hi));
        assert_seqs_equal!(spec_chunks_concat(data, bs, k) == data.subrange(0, hi), j => {
            assert(spec_chunks_concat(data, bs, k) == head + tail);
            if j < prev {
                assert((head + tail)[j] == head[j]);
                assert(head[j] == data.subrange(0, prev)[j]);
            } else {
                assert((head + tail)[j] == tail[j - prev]);
                assert(tail[j - prev] == data.subrange(prev, hi)[j - prev]);
            }
        });
    }
}

/// Splitting `data` into its `spec_block_count` chunks loses nothing: the
/// concatenation of all chunks is `data` itself.
pub proof fn lemma_chunks_cover_data(data: Seq<u8>, bs: int)
    requires
        bs > 0,
    ensures
        spec_chunks_concat(data, bs, spec_block_count(data.len() as int, bs)) == data,
{
    let n = spec_block_count(data.len() as int, bs);
    lemma_block_count_bounds(data.len() as int, bs);
    lemma_chunks_concat_prefix(data, bs, n);
    assert_seqs_equal!(data.subrange(0, data.len() as int) == data);
}

// ── lemmas about sums and the encoded index ────────────────────────────────

/// Appending an entry adds its raw length to the raw sum.
pub proof fn lemma_sum_raw_push(entries: Seq<BlockEntry>, e: BlockEntry)
    ensures
        spec_sum_raw(entries.push(e)) == spec_sum_raw(entries) + e.raw_len,
{
    assert(entries.push(e).last() == e);
    assert_seqs_equal!(entries.push(e).drop_last() == entries);
}

/// Appending an entry adds its stored payload and sidecar lengths to the
/// compressed sum.
pub proof fn lemma_sum_comp_push(entries: Seq<BlockEntry>, e: BlockEntry)
    ensures
        spec_sum_comp(entries.push(e)) == spec_sum_comp(entries) + e.compressed_len
            + e.metadata_len,
{
    assert(entries.push(e).last() == e);
    assert_seqs_equal!(entries.push(e).drop_last() == entries);
}

/// The raw sum of a run of entries is never negative.
pub proof fn lemma_sum_raw_nonneg(entries: Seq<BlockEntry>)
    ensures
        spec_sum_raw(entries) >= 0,
    decreases entries.len(),
{
    if entries.len() > 0 {
        lemma_sum_raw_nonneg(entries.drop_last());
    }
}

/// The compressed sum of a run of entries is never negative.
pub proof fn lemma_sum_comp_nonneg(entries: Seq<BlockEntry>)
    ensures
        spec_sum_comp(entries) >= 0,
    decreases entries.len(),
{
    if entries.len() > 0 {
        lemma_sum_comp_nonneg(entries.drop_last());
    }
}

/// The encoded index is exactly 32 bytes per entry.
pub proof fn lemma_index_bytes_len(entries: Seq<BlockEntry>)
    ensures
        spec_index_bytes(entries).len() == 32 * entries.len(),
    decreases entries.len(),
{
    if entries.len() > 0 {
        lemma_index_bytes_len(entries.drop_last());
        lemma_entry_roundtrip(entries.last());
    }
}

/// Appending an entry appends its 32 encoded bytes.
pub proof fn lemma_index_bytes_push(entries: Seq<BlockEntry>, e: BlockEntry)
    ensures
        spec_index_bytes(entries.push(e)) == spec_index_bytes(entries) + spec_entry_bytes(e),
{
    assert(entries.push(e).last() == e);
    assert_seqs_equal!(entries.push(e).drop_last() == entries);
}

/// The 32 bytes at position `32 * i` of the encoded index are the encoding
/// of entry `i`.
pub proof fn lemma_index_bytes_at(entries: Seq<BlockEntry>, i: int)
    requires
        0 <= i < entries.len(),
    ensures
        spec_index_bytes(entries).subrange(32 * i, 32 * i + 32) == spec_entry_bytes(entries[i]),
    decreases entries.len(),
{
    lemma_index_bytes_len(entries);
    lemma_index_bytes_len(entries.drop_last());
    lemma_entry_roundtrip(entries.last());
    if i == entries.len() - 1 {
        assert_seqs_equal!(
            spec_index_bytes(entries).subrange(32 * i, 32 * i + 32)
                == spec_entry_bytes(entries[i])
        );
    } else {
        lemma_index_bytes_at(entries.drop_last(), i);
        assert(entries.drop_last()[i] == entries[i]);
        assert_seqs_equal!(
            spec_index_bytes(entries).subrange(32 * i, 32 * i + 32)
                == spec_index_bytes(entries.drop_last()).subrange(32 * i, 32 * i + 32)
        );
    }
}

// ── where each block's raw bytes start ─────────────────────────────────────

/// Raw-byte position where block `i` starts: the sum of the raw lengths of
/// the entries before it.
pub open spec fn spec_entry_start(entries: Seq<BlockEntry>, i: int) -> int {
    spec_sum_raw(entries.subrange(0, i))
}

/// Appending an entry moves no earlier block's start.
pub proof fn lemma_entry_start_push(entries: Seq<BlockEntry>, e: BlockEntry, i: int)
    requires
        0 <= i <= entries.len(),
    ensures
        spec_entry_start(entries.push(e), i) == spec_entry_start(entries, i),
{
    assert_seqs_equal!(entries.push(e).subrange(0, i) == entries.subrange(0, i));
}

/// Block `i + 1` starts where block `i` ends.
pub proof fn lemma_entry_start_next(entries: Seq<BlockEntry>, i: int)
    requires
        0 <= i < entries.len(),
    ensures
        spec_entry_start(entries, i + 1) == spec_entry_start(entries, i) + entries[i].raw_len,
{
    assert(entries.subrange(0, i + 1).last() == entries[i]);
    assert_seqs_equal!(entries.subrange(0, i + 1).drop_last() == entries.subrange(0, i));
}

/// Every block's raw bytes lie within the total raw sum.
pub proof fn lemma_entry_start_bounds(entries: Seq<BlockEntry>, i: int)
    requires
        0 <= i < entries.len(),
    ensures
        0 <= spec_entry_start(entries, i),
        spec_entry_start(entries, i) + entries[i].raw_len <= spec_sum_raw(entries),
    decreases entries.len() - i,
{
    lemma_sum_raw_nonneg(entries.subrange(0, i));
    lemma_entry_start_next(entries, i);
    if i == entries.len() - 1 {
        assert_seqs_equal!(entries.subrange(0, i + 1) == entries);
    } else {
        lemma_entry_start_bounds(entries, i + 1);
    }
}

/// When every entry before `i` is a full block of `bs` bytes, block `i`
/// starts at `i * bs`.
pub proof fn lemma_entry_start_full(entries: Seq<BlockEntry>, bs: int, i: int)
    requires
        0 <= i <= entries.len(),
        forall|j: int| 0 <= j < i ==> (#[trigger] entries[j].raw_len) == bs,
    ensures
        spec_entry_start(entries, i) == i * bs,
    decreases i,
{
    if i == 0 {
        assert_seqs_equal!(entries.subrange(0, 0) == Seq::<BlockEntry>::empty());
        assert(i * bs == 0) by (nonlinear_arith)
            requires i == 0
        {
        }
    } else {
        lemma_entry_start_full(entries, bs, i - 1);
        lemma_entry_start_next(entries, i - 1);
        lemma_mul_is_distributive_sub_other_way(bs, i, 1);
        assert((i - 1) * bs == i * bs - bs);
    }
}

/// A prefix of a run of entries never sums to more raw bytes than the whole.
pub proof fn lemma_sum_raw_prefix(entries: Seq<BlockEntry>, k: int)
    requires
        0 <= k <= entries.len(),
    ensures
        spec_sum_raw(entries.subrange(0, k)) <= spec_sum_raw(entries),
{
    if k == entries.len() {
        assert_seqs_equal!(entries.subrange(0, k) == entries);
    } else {
        lemma_entry_start_bounds(entries, k);
        lemma_sum_raw_nonneg(entries.subrange(0, k));
    }
}

/// A prefix of a run of entries never sums to more stored bytes than the
/// whole.
pub proof fn lemma_sum_comp_prefix(entries: Seq<BlockEntry>, k: int)
    requires
        0 <= k <= entries.len(),
    ensures
        spec_sum_comp(entries.subrange(0, k)) <= spec_sum_comp(entries),
    decreases entries.len() - k,
{
    if k == entries.len() {
        assert_seqs_equal!(entries.subrange(0, k) == entries);
    } else {
        lemma_sum_comp_prefix(entries, k + 1);
        assert(entries.subrange(0, k + 1).last() == entries[k]);
        assert_seqs_equal!(entries.subrange(0, k + 1).drop_last() == entries.subrange(0, k));
    }
}

/// Extending a prefix of entries by one adds that entry's raw length.
pub proof fn lemma_sum_raw_take_step(entries: Seq<BlockEntry>, k: int)
    requires
        0 <= k < entries.len(),
    ensures
        spec_sum_raw(entries.subrange(0, k + 1)) == spec_sum_raw(entries.subrange(0, k))
            + entries[k].raw_len,
{
    assert(entries.subrange(0, k + 1).last() == entries[k]);
    assert_seqs_equal!(entries.subrange(0, k + 1).drop_last() == entries.subrange(0, k));
}

/// Extending a prefix of entries by one adds that entry's stored lengths.
pub proof fn lemma_sum_comp_take_step(entries: Seq<BlockEntry>, k: int)
    requires
        0 <= k < entries.len(),
    ensures
        spec_sum_comp(entries.subrange(0, k + 1)) == spec_sum_comp(entries.subrange(0, k))
            + entries[k].compressed_len + entries[k].metadata_len,
{
    assert(entries.subrange(0, k + 1).last() == entries[k]);
    assert_seqs_equal!(entries.subrange(0, k + 1).drop_last() == entries.subrange(0, k));
}

/// Integer division brackets its argument between consecutive multiples.
pub proof fn lemma_div_bounds(x: int, d: int)
    requires
        d > 0,
        x >= 0,
    ensures
        (x / d) * d <= x,
        x < (x / d + 1) * d,
        x / d >= 0,
{
    lemma_fundamental_div_mod(x, d);
    lemma_mod_pos_bound(x, d);
    lemma_mul_is_distributive_add_other_way(d, x / d, 1);
    vstd::arithmetic::mul::lemma_mul_is_commutative(x / d, d);
    vstd::arithmetic::div_mod::lemma_div_pos_is_pos(x, d);
}

/// Anything at or below a quotient stays at or below the dividend when
/// scaled back up.
pub proof fn lemma_mul_div_le(a: int, x: int, d: int)
    requires
        d > 0,
        x >= 0,
        a <= x / d,
    ensures
        a * d <= x,
{
    lemma_div_bounds(x, d);
    lemma_mul_inequality(a, x / d, d);
}

/// The block covering the last byte of a non-empty range lies inside the
/// block count.
pub proof fn lemma_last_block_in_range(len: int, bs: int, e: int)
    requires
        bs > 0,
        0 < e <= len,
    ensures
        (e - 1) / bs < spec_block_count(len, bs),
{
    vstd::arithmetic::div_mod::lemma_div_is_ordered(e - 1, len - 1, bs);
    vstd::arithmetic::div_mod::lemma_div_plus_one(len - 1, bs);
    assert(spec_block_count(len, bs) == (bs + (len - 1)) / bs);
}

/// Chained blocks occupy disjoint, ordered regions: block `i` ends at or
/// before block `j` begins whenever `i < j`.
pub proof fn lemma_chained_regions_ordered(
    entries: Seq<BlockEntry>,
    index_off: int,
    i: int,
    j: int,
)
    requires
        spec_entries_chained(entries, index_off),
        0 <= i < j < entries.len(),
    ensures
        entries[i].offset + spec_stored_len(entries[i]) <= entries[j].offset,
    decreases j - i,
{
    if j > i + 1 {
        lemma_chained_regions_ordered(entries, index_off, i, j - 1);
    }
}

/// In a chained run of entries every block starts at or after the header.
pub proof fn lemma_chained_offset_lb(entries: Seq<BlockEntry>, index_off: int, i: int)
    requires
        spec_entries_chained(entries, index_off),
        0 <= i < entries.len(),
    ensures
        entries[i].offset >= HEADER_SIZE,
    decreases i,
{
    if i > 0 {
        lemma_chained_offset_lb(entries, index_off, i - 1);
    }
}

// ── subranges of concatenations ────────────────────────────────────────────

/// A subrange that lies within `x` is unchanged when `y` is appended.
pub proof fn lemma_subrange_of_append<T>(x: Seq<T>, y: Seq<T>, a: int, b: int)
    requires
        0 <= a <= b <= x.len(),
    ensures
        (x + y).subrange(a, b) == x.subrange(a, b),
{
    assert_seqs_equal!((x + y).subrange(a, b) == x.subrange(a, b), t => {
        assert((x + y)[a + t] == x[a + t]);
    });
}

/// The appended part of a concatenation reads back exactly.
pub proof fn lemma_subrange_at_append<T>(x: Seq<T>, y: Seq<T>)
    ensures
        (x + y).subrange(x.len() as int, (x.len() + y.len()) as int) == y,
{
    assert_seqs_equal!(
        (x + y).subrange(x.len() as int, (x.len() + y.len()) as int) == y,
        t => { assert((x + y)[x.len() + t] == y[t]); }
    );
}

// ── stability of recovery under image growth ───────────────────────────────

/// A block recovered from one image is recovered from any other image that
/// carries the same bytes over the block's stored region.
pub proof fn lemma_recovers_agree<C: Codec>(
    a: Seq<u8>,
    b: Seq<u8>,
    codec: C,
    e: BlockEntry,
    chunk: Seq<u8>,
)
    requires
        spec_block_recovers(a, codec, e, chunk),
        e.offset + spec_stored_len(e) <= b.len(),
        b.subrange(e.offset as int, e.offset + spec_stored_len(e)) == a.subrange(
            e.offset as int,
            e.offset + spec_stored_len(e),
        ),
    ensures
        spec_block_recovers(b, codec, e, chunk),
{
    let off = e.offset as int;
    let stored = spec_stored_len(e);
    let rb = b.subrange(off, off + stored);
    let ra = a.subrange(off, off + stored);
    let ps = spec_payload_start(e);
    assert_seqs_equal!(spec_payload_of(b, e) == spec_payload_of(a, e), t => {
        assert(rb[ps - off + t] == ra[ps - off + t]);
    });
    if e.metadata_len > 0 {
        assert_seqs_equal!(spec_sidecar_of(b, e) == spec_sidecar_of(a, e), t => {
            assert(rb[2 + t] == ra[2 + t]);
        });
        assert_seqs_equal!(
            b.subrange(e.offset as int, e.offset + 2)
                == a.subrange(e.offset as int, e.offset + 2),
            t => { assert(rb[t] == ra[t]); }
        );
    }
}

} // verus!
