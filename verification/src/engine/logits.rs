//! Logits: the half-precision numbers that the device hands out as bytes.
use crate::base::numeric::Half;
use vstd::prelude::*;

verus! {

/// The numbers encoded in `bytes`, two bytes each, low byte first. An odd last byte
/// belongs to none.
pub open spec fn halves(bytes: Seq<u8>) -> Seq<Half> {
    Seq::new(
        bytes.len() / 2,
        |i: int| Half { bits: (bytes[2 * i] + 256 * bytes[2 * i + 1]) as u16 },
    )
}

/// Reads the half-precision numbers in `bytes`.
pub fn decode_logits(bytes: &[u8]) -> (res: Vec<Half>)
    ensures
        res@ == halves(bytes@),
{
    let len: usize = bytes.len();
    let n: usize = len / 2;
    let mut logits: Vec<Half> = Vec::new();
    let mut i: usize = 0;
    while i < n
        invariant
            i <= n,
            len == bytes@.len(),
            n == len / 2,
            logits@ =~= halves(bytes@).take(i as int),
        decreases n - i,
    {
        let low: u16 = bytes[2 * i] as u16;
        let high: u16 = bytes[2 * i + 1] as u16;
        logits.push(Half { bits: low + 256 * high });
        i = i + 1;
    }
    assert(halves(bytes@).take(i as int) =~= halves(bytes@));
    logits
}

} // verus!
