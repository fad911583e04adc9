use vstd::prelude::*;

verus! {

/// The hex string that the 256-bit Keccak digest of a byte sequence encodes
/// to. The digest depends on the input bytes alone, so the result is a
/// function of its argument; nothing further is assumed of its value.
pub uninterp spec fn keccak_hex_of(data: Seq<u8>) -> Seq<char>;

/// Relies on tiny_keccak's `Keccak::v256`/`update`/`finalize` for the 32-byte
/// Keccak-256 digest of `data`, and on `hex::encode` for its lowercase hex
/// form: two hex digits per digest byte, hence 64 characters.
#[verifier::external_body]
pub(crate) fn get_hash(data: &[u8]) -> (r: String)
    ensures
        r@ == keccak_hex_of(data@),
        r@.len() == 64,
{
    let mut keccak = tiny_keccak::Keccak::v256();
    tiny_keccak::Hasher::update(&mut keccak, data);
    let mut output = [0u8; 32];
    tiny_keccak::Hasher::finalize(keccak, &mut output);
    hex::encode(output)
}

} // verus!
