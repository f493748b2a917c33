//! Signature matching for a binary texture container, and the
//! little-endian integer assembly its header reader relies on.

use vstd::prelude::*;

verus! {

/// The container's four-byte signature: `VTF` followed by a null byte.
pub open spec fn vtf_signature() -> Seq<u8> {
    seq![0x56u8, 0x54u8, 0x46u8, 0x00u8]
}

/// Whether a header begins with the container's signature.
pub fn matches(header: &[u8]) -> (r: bool)
    ensures
        r == (header@.len() >= 4 && header@.subrange(0, 4) == vtf_signature()),
{
    if header.len() < 4 {
        return false;
    }
    let r = header[0] == 0x56 && header[1] == 0x54 && header[2] == 0x46 && header[3] == 0x00;
    proof {
        if r {
            assert(header@.subrange(0, 4) =~= vtf_signature());
        } else {
            if header@.subrange(0, 4) == vtf_signature() {
                assert(header@.subrange(0, 4)[0] == 0x56u8);
                assert(header@.subrange(0, 4)[1] == 0x54u8);
                assert(header@.subrange(0, 4)[2] == 0x46u8);
                assert(header@.subrange(0, 4)[3] == 0x00u8);
            }
        }
    }
    r
}

/// Assemble a 16-bit value from its little-endian bytes.
pub fn le_u16(lo: u8, hi: u8) -> (r: u16)
    ensures
        r as int == lo as int + 256 * (hi as int),
{
    lo as u16 + 256 * (hi as u16)
}

} // verus!
