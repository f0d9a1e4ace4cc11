use vstd::prelude::*;

verus! {

/// Whether the checker cell with integer coordinates `(x, y, z)` takes the
/// even texture: the sum of the coordinates is even.
pub fn checker_is_even(x: i32, y: i32, z: i32) -> (even: bool)
    ensures
        even == ((x + y + z) % 2 == 0),
{
    let sum: i64 = x as i64 + y as i64 + z as i64;
    sum % 2 == 0
}

} // verus!
