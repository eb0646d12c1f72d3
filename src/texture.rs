//! Integer side of the procedural checker texture.
use vstd::prelude::*;

verus! {

/// Whether lattice cell `(x, y, z)` of a checker pattern takes the even
/// texture: it does exactly when its coordinates sum to an even number.
pub fn checker_is_even(x: i64, y: i64, z: i64) -> (r: bool)
    ensures
        r == ((x + y + z) % 2 == 0),
{
    let sum = (x as i128) + (y as i128) + (z as i128);
    sum % 2 == 0
}

} // verus!
