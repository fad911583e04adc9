use vstd::prelude::*;

verus! {

use vstd::bytes::{spec_u64_to_le_bytes, lemma_auto_spec_u64_to_from_le_bytes};
use vstd::bytes::{u64_from_le_bytes, u64_to_le_bytes};
use vstd::slice::{slice_subrange, slice_to_vec};
use vstd::utf8::{encode_utf8, valid_utf8, encode_utf8_valid_utf8, encode_utf8_decode_utf8, decode_utf8};
use vstd::string::StringSliceAdditionalSpecFns;

/// The persisted form of a map's metadata record `{name, depth}`: the depth
/// as eight little-endian bytes, followed by the UTF-8 bytes of the name.
pub open spec fn encode_meta(name: Seq<char>, depth: u64) -> Seq<u8> {
    spec_u64_to_le_bytes(depth) + encode_utf8(name)
}

/// A metadata record is well formed when its depth is positive and its name
/// is non-empty.
pub open spec fn meta_wf(name: Seq<char>, depth: u64) -> bool {
    1 <= depth && name.len() != 0
}

/// Two well-formed metadata records with the same encoding are the same
/// record: the first eight bytes pin the depth, and the UTF-8 tail pins the
/// name.
pub proof fn lemma_encode_meta_injective(n1: Seq<char>, d1: u64, n2: Seq<char>, d2: u64)
    requires
        encode_meta(n1, d1) == encode_meta(n2, d2),
    ensures
        n1 == n2,
        d1 == d2,
{
    lemma_auto_spec_u64_to_from_le_bytes();
    let b1 = encode_meta(n1, d1);
    let b2 = encode_meta(n2, d2);
    assert(b1.subrange(0, 8) =~= spec_u64_to_le_bytes(d1));
    assert(b2.subrange(0, 8) =~= spec_u64_to_le_bytes(d2));
    assert(b1.subrange(8, b1.len() as int) =~= encode_utf8(n1));
    assert(b2.subrange(8, b2.len() as int) =~= encode_utf8(n2));
    encode_utf8_decode_utf8(n1);
    encode_utf8_decode_utf8(n2);
    assert(n1 =~= decode_utf8(encode_utf8(n1)));
    assert(n2 =~= decode_utf8(encode_utf8(n2)));
}

/// Relies on `std::str::from_utf8`: it returns `Ok` exactly on valid UTF-8
/// input, and the resulting string slice views the same bytes.
#[verifier::external_body]
fn bytes_as_str<'a>(v: &'a [u8]) -> (r: Option<&'a str>)
    ensures
        r matches Some(s) ==> s.spec_bytes() == v@,
        valid_utf8(v@) ==> r is Some,
{
    core::str::from_utf8(v).ok()
}

/// Serialize a metadata record. The result is exactly `encode_meta` of the
/// name and depth.
pub fn encode_metadata(name: &str, depth: u64) -> (r: Vec<u8>)
    ensures
        r@ == encode_meta(name@, depth),
{
    let mut out = u64_to_le_bytes(depth);
    let mut name_bytes = slice_to_vec(name.as_bytes());
    out.append(&mut name_bytes);
    out
}

/// Parse a metadata record. Exactly the well-formed encodings are accepted:
/// the result is `Some` precisely on `encode_meta(n, d)` with `d >= 1` and a
/// non-empty `n`, and then returns that `n` and `d`; anything else is
/// rejected.
pub fn decode_metadata(bytes: &[u8]) -> (r: Option<(String, u64)>)
    ensures
        r matches Some(p) ==> meta_wf(p.0@, p.1) && bytes@ == encode_meta(p.0@, p.1),
        forall|n: Seq<char>, d: u64|
            meta_wf(n, d) && bytes@ == encode_meta(n, d) ==> (r matches Some(p) && p.0@ == n
                && p.1 == d),
{
    proof {
        lemma_auto_spec_u64_to_from_le_bytes();
    }
    if bytes.len() < 8 {
        return None;
    }
    let head = slice_subrange(bytes, 0, 8);
    let depth = u64_from_le_bytes(head);
    if depth == 0 {
        proof {
            assert forall|n: Seq<char>, d: u64|
                meta_wf(n, d) && bytes@ == encode_meta(n, d) implies false by {
                assert(bytes@.subrange(0, 8) =~= spec_u64_to_le_bytes(d));
            }
        }
        return None;
    }
    let rest = slice_subrange(bytes, 8, bytes.len());
    proof {
        assert forall|n: Seq<char>, d: u64|
            meta_wf(n, d) && bytes@ == encode_meta(n, d) implies rest@ == encode_utf8(n) by {
            assert(bytes@.subrange(8, bytes@.len() as int) =~= encode_utf8(n));
        }
    }
    match bytes_as_str(rest) {
        None => {
            proof {
                assert forall|n: Seq<char>, d: u64|
                    meta_wf(n, d) && bytes@ == encode_meta(n, d) implies false by {
                    encode_utf8_valid_utf8(n);
                }
            }
            None
        },
        Some(s) => {
            proof {
                assert forall|n: Seq<char>, d: u64|
                    meta_wf(n, d) && bytes@ == encode_meta(n, d) implies s@ == n && depth == d by {
                    encode_utf8_decode_utf8(s@);
                    encode_utf8_decode_utf8(n);
                    assert(s@ =~= n);
                    assert(bytes@.subrange(0, 8) =~= spec_u64_to_le_bytes(d));
                }
            }
            if s.is_empty() {
                return None;
            }
            let name = s.to_owned();
            proof {
                assert(bytes@ =~= bytes@.subrange(0, 8) + bytes@.subrange(8, bytes@.len() as int));
                assert(bytes@.subrange(0, 8) =~= head@);
                assert(spec_u64_to_le_bytes(depth) =~= head@);
            }
            Some((name, depth))
        },
    }
}

} // verus!
