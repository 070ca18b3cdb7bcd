//! Small verified string helpers.

use vstd::prelude::*;
use vstd::string::*;

verus! {

/// Whether two texts are equal, character for character.
pub fn str_eq(a: &str, b: &str) -> (same: bool)
    ensures
        same == (a@ == b@),
{
    let a = String::from_str(a);
    let b = String::from_str(b);
    a == b
}

} // verus!
