use vstd::prelude::*;

use crate::error::AncfError;

verus! {

/// Per-block sidecar metadata written and read by the codec.
///
/// For the generic codecs bundled here it is always empty. Domain codecs may
/// carry per-block tables in it, which keep every block independently
/// decodable without any global state.
#[derive(Debug)]
pub struct BlockMeta {
    pub sidecar: Vec<u8>,
}

impl Default for BlockMeta {
    fn default() -> (r: Self)
        ensures
            r.sidecar@ == Seq::<u8>::empty(),
    {
        BlockMeta { sidecar: Vec::new() }
    }
}

/// Core compression capability.
///
/// Each implementation is identified by a stable numeric id stored in the
/// file header, and must compress and decompress individual blocks
/// independently: no state crosses a block boundary. That independence is
/// what makes random access possible, and it is captured by `spec_decode`
/// being a function of one block's payload and sidecar alone.
pub trait Codec {
    /// The stable codec id recorded in the file header.
    spec fn spec_id(&self) -> u16;

    /// What decompression yields for one block: `Some(raw)` when the payload
    /// and sidecar decode to `raw`, `None` when the payload is rejected.
    spec fn spec_decode(&self, compressed: Seq<u8>, sidecar: Seq<u8>) -> Option<Seq<u8>>;

    fn id(&self) -> (r: u16)
        ensures
            r == self.spec_id(),
    ;

    /// Human-readable codec name for display.
    fn name(&self) -> (r: &'static str);

    /// Compress a single independent block. The produced payload, together
    /// with whatever sidecar the codec recorded, decodes back to `raw`.
    fn compress_block(&self, raw: &[u8], meta: &mut BlockMeta) -> (r: Result<
        Vec<u8>,
        AncfError,
    >)
        requires
            raw@.len() <= u32::MAX,
            old(meta).sidecar@.len() == 0,
        ensures
            final(meta).sidecar@.len() <= u16::MAX,
            (r matches Ok(c) ==> self.spec_decode(c@, final(meta).sidecar@) == Some(raw@)),
            (r matches Err(e) ==> e == AncfError::CodecError),
    ;

    /// Decompress a single independent block; `meta` holds the sidecar that
    /// `compress_block` recorded for this block.
    fn decompress_block(&self, compressed: &[u8], meta: &BlockMeta) -> (r: Result<
        Vec<u8>,
        AncfError,
    >)
        ensures
            (r matches Ok(v) ==> self.spec_decode(compressed@, meta.sidecar@) == Some(v@)),
            (r matches Err(e) ==> self.spec_decode(compressed@, meta.sidecar@) is None
                && e == AncfError::CodecError),
    ;
}

} // verus!
