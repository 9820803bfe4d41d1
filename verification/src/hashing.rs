use vstd::prelude::*;
use xoodyak::XoodyakCommon;
use xoodyak::XoodyakHash;

verus! {

/// The 96-bit digest (three 32-bit words, low word first) the Xoodoo sponge
/// produces for a byte-sequence key.
pub uninterp spec fn digest_of_bytes(key: Seq<u8>) -> (u32, u32, u32);

/// The 96-bit digest (three 32-bit words, low word first) the Xoodoo sponge
/// produces for a 64-bit integer key.
pub uninterp spec fn digest_of_u64(key: u64) -> (u32, u32, u32);

/// Relies on xoodyak's `XoodyakHash::new`, `absorb` and `squeeze`: a fresh
/// hash state absorbed with the key bytes and squeezed to 12 bytes is
/// deterministic, a function of the key bytes alone, and leaks no state
/// between calls. The 12 squeezed bytes are read as three big-endian words.
#[verifier::external_body]
pub(crate) fn digest_bytes(key: &[u8]) -> (r: (u32, u32, u32))
    ensures
        r == digest_of_bytes(key@),
{
    let mut st = XoodyakHash::new();
    st.absorb(key);
    let mut out = [0u8; 12];
    st.squeeze(&mut out);
    (
        u32::from_be_bytes([out[0], out[1], out[2], out[3]]),
        u32::from_be_bytes([out[4], out[5], out[6], out[7]]),
        u32::from_be_bytes([out[8], out[9], out[10], out[11]]),
    )
}

/// Relies on the same xoodyak calls as `digest_bytes`, absorbing the key as
/// its 96-bit big-endian block: four zero bytes, then its eight big-endian
/// bytes. Deterministic in the key alone.
#[verifier::external_body]
pub(crate) fn digest_u64(key: u64) -> (r: (u32, u32, u32))
    ensures
        r == digest_of_u64(key),
{
    let mut block = [0u8; 12];
    block[4..].copy_from_slice(&key.to_be_bytes());
    let mut st = XoodyakHash::new();
    st.absorb(&block);
    let mut out = [0u8; 12];
    st.squeeze(&mut out);
    (
        u32::from_be_bytes([out[0], out[1], out[2], out[3]]),
        u32::from_be_bytes([out[4], out[5], out[6], out[7]]),
        u32::from_be_bytes([out[8], out[9], out[10], out[11]]),
    )
}

} // verus!
