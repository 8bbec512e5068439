use vstd::prelude::*;

verus! {

/// Moves a signed coordinate into the unsigned range by flipping its sign bit,
/// so that `i16::MIN` becomes 0 and 0 becomes 32768.
pub fn map_sign_to_non_sign(x: i16) -> (r: u16)
    ensures
        r == x + 32768,
{
    ((x as i32) + 32768) as u16
}

/// Moves an unsigned coordinate back into the signed range by flipping its
/// sign bit, so that 0 becomes `i16::MIN` and 32768 becomes 0.
pub fn map_non_sign_to_sign(x: u16) -> (r: i16)
    ensures
        r == x - 32768,
{
    ((x as i32) - 32768) as i16
}

/// Mapping a coordinate into the other range and back gives it unchanged.
pub proof fn lemma_sign_mapping_round_trip(x: i16, u: u16)
    ensures
        (x + 32768) - 32768 == x,
        0 <= x + 32768 <= u16::MAX,
        i16::MIN <= u - 32768 <= i16::MAX,
{
}

} // verus!
