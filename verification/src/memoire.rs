//! Little-endian 32-bit words stored in a byte region.

use vstd::prelude::*;

verus! {

/// The 32-bit word whose little-endian encoding occupies the four bytes of `octets` that start
/// at `decalage`.
pub open spec fn mot(octets: Seq<u8>, decalage: int) -> int {
    octets[decalage] + 256 * octets[decalage + 1] + 65536 * octets[decalage + 2] + 16777216
        * octets[decalage + 3]
}

/// Reads the word stored at `decalage`.
pub fn lire_mot(octets: &Vec<u8>, decalage: usize) -> (valeur: u32)
    requires
        decalage + 4 <= octets.len(),
    ensures
        valeur == mot(octets@, decalage as int),
{
    let b0: u32 = octets[decalage] as u32;
    let b1: u32 = octets[decalage + 1] as u32;
    let b2: u32 = octets[decalage + 2] as u32;
    let b3: u32 = octets[decalage + 3] as u32;
    b0 + 256 * b1 + 65536 * b2 + 16777216 * b3
}

/// Stores `valeur` at `decalage`, leaving every other byte as it was.
pub fn ecrire_mot(octets: &mut Vec<u8>, decalage: usize, valeur: u32)
    requires
        decalage + 4 <= old(octets).len(),
    ensures
        final(octets)@.len() == old(octets)@.len(),
        mot(final(octets)@, decalage as int) == valeur,
        forall|k: int|
            0 <= k < old(octets)@.len() && !(decalage <= k < decalage + 4) ==> final(octets)@[k]
                == old(octets)@[k],
{
    let b0: u8 = (valeur % 256) as u8;
    let b1: u8 = ((valeur / 256) % 256) as u8;
    let b2: u8 = ((valeur / 65536) % 256) as u8;
    let b3: u8 = (valeur / 16777216) as u8;
    octets[decalage] = b0;
    octets[decalage + 1] = b1;
    octets[decalage + 2] = b2;
    octets[decalage + 3] = b3;
}

} // verus!
