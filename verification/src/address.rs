use vstd::prelude::*;

verus! {

/// The all-zero contract address, written as forty hex digits.
pub const ZERO_ADDR: &'static str = "0000000000000000000000000000000000000000";

/// The all-zero contract address with its `0x` prefix.
pub const ZERO_ADDR_WITH_PREFIX: &'static str = "0x0000000000000000000000000000000000000000";

/// The all-zero address in ski-hex form, which is the empty string.
pub const ZERO_ADDR_SKI_HEX: &'static str = "";

/// Returns whether `address` is the all-zero ski-hex address.
pub fn is_zero_ski_hex_address(address: &str) -> (r: bool)
    ensures
        r == (address@ == ZERO_ADDR_SKI_HEX@),
{
    proof {
        reveal_strlit("");
    }
    let r = address.is_empty();
    proof {
        if r {
            assert(address@ =~= ZERO_ADDR_SKI_HEX@);
        } else {
            assert(address@.len() != ZERO_ADDR_SKI_HEX@.len());
        }
    }
    r
}

} // verus!
