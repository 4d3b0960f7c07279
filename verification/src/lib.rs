//! ANCF1: a block-structured, access-native compressed container format.
//!
//! Any logical byte range of a compressed artifact can be recovered by
//! reading only the compressed block(s) that cover it, never the whole
//! stream. The crate provides the byte-exact format primitives, the codec
//! capability, the streaming block writer, and the random-access reader.

pub mod checksum;
pub mod codec;
pub mod codecs;
pub mod error;
pub mod format;
pub mod model;
pub mod reader;
pub mod writer;

pub use codec::BlockMeta;
pub use codec::Codec;
pub use codecs::codec_by_id;
pub use codecs::AnyCodec;
pub use codecs::Lz4Codec;
pub use codecs::PassThroughCodec;
pub use codecs::ZstdCodec;
pub use error::AncfError;
pub use format::Ancf1Header;
pub use format::BlockEntry;
pub use format::DEFAULT_BLOCK_SIZE;
pub use format::HEADER_SIZE;
pub use reader::Reader;
pub use writer::Writer;
