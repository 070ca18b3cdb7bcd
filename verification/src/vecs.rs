//! Verified helpers over vectors.

use vstd::prelude::*;

verus! {

/// The elements of `v` in reverse order, moved rather than copied.
pub fn reversed<T>(v: Vec<T>) -> (r: Vec<T>)
    ensures
        r@ == v@.reverse(),
{
    let ghost s = v@;
    let n = v.len();
    let mut rest = v;
    let mut out: Vec<T> = Vec::new();
    while rest.len() > 0
        invariant
            out.len() + rest.len() == n,
            n == s.len(),
            rest@ == s.take(rest.len() as int),
            forall|i: int| 0 <= i < out.len() ==> #[trigger] out@[i] == s[n - 1 - i],
        decreases rest.len(),
    {
        let x = rest.pop().unwrap();
        proof {
            assert(rest@ =~= s.take(rest.len() as int));
        }
        out.push(x);
    }
    assert(out@ =~= s.reverse());
    out
}

} // verus!
