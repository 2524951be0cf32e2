//! Line colours of the rating-history charts.
use vstd::prelude::*;

verus! {

/// The red, green and blue components a hash selects: its three lowest
/// bytes, lowest first.
pub fn rgb_from_hash(hash: u64) -> (rgb: [u8; 3])
    ensures
        rgb[0] == hash % 256,
        rgb[1] == (hash / 256) % 256,
        rgb[2] == (hash / 65536) % 256,
{
    let r = (hash & 0xFF) as u8;
    let g = ((hash >> 8) & 0xFF) as u8;
    let b = ((hash >> 16) & 0xFF) as u8;
    assert(hash & 0xFF == hash % 256) by (bit_vector);
    assert((hash >> 8) & 0xFF == (hash / 256) % 256) by (bit_vector);
    assert((hash >> 16) & 0xFF == (hash / 65536) % 256) by (bit_vector);
    [r, g, b]
}

} // verus!
