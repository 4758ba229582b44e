use vstd::prelude::*;

verus! {

/// First accumulator of the Adler-32 checksum: one plus the sum of the
/// bytes, reduced modulo 65521 after each byte.
pub open spec fn adler_a(s: Seq<u8>) -> nat
    decreases s.len(),
{
    if s.len() == 0 {
        1
    } else {
        ((adler_a(s.drop_last()) + s.last()) % 65521) as nat
    }
}

/// Second accumulator of the Adler-32 checksum: the running sum of the
/// first accumulator, reduced modulo 65521 after each byte.
pub open spec fn adler_b(s: Seq<u8>) -> nat
    decreases s.len(),
{
    if s.len() == 0 {
        0
    } else {
        ((adler_b(s.drop_last()) + adler_a(s)) % 65521) as nat
    }
}

/// The Adler-32 checksum of a byte sequence: the second accumulator in the
/// high 16 bits, the first in the low 16.
pub open spec fn spec_adler32(s: Seq<u8>) -> u32 {
    (adler_b(s) * 0x10000 + adler_a(s)) as u32
}

/// Relies on adler32::RollingAdler32: `from_buffer` computes the standard
/// Adler-32 checksum of the buffer (first accumulator starts at 1, second
/// at 0, both reduced modulo 65521) and `hash` returns the second
/// accumulator shifted into the high 16 bits, or-ed with the first.
#[verifier::external_body]
fn rolling_adler32(data: &[u8]) -> (r: u32)
    ensures
        r == spec_adler32(data@),
{
    let rolling = adler32::RollingAdler32::from_buffer(data);
    rolling.hash()
}

/// The weak rolling checksum over a byte window.
pub trait Ad32 {
    fn ad32(&self) -> u32;
}

impl Ad32 for [u8] {
    fn ad32(&self) -> (r: u32)
        ensures
            r == spec_adler32(self@),
    {
        rolling_adler32(self)
    }
}

} // verus!
