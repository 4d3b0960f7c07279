use vstd::prelude::*;

verus! {

/// The xxh3-64 digest of a byte sequence.
///
/// Left uninterpreted: the digest is a pure function of the input bytes,
/// computed by the `xxhash_rust` crate, and its definition is not restated
/// here.
pub uninterp spec fn xxh3_64_of(data: Seq<u8>) -> u64;

/// Relies on `xxhash_rust::xxh3::xxh3_64`: the digest is a deterministic
/// function of the input bytes alone, identical on every machine.
#[verifier::external_body]
pub(crate) fn xxh3_checksum(data: &[u8]) -> (r: u64)
    ensures
        r == xxh3_64_of(data@),
{
    xxhash_rust::xxh3::xxh3_64(data)
}

} // verus!
