//! Small general-purpose helpers.

use vstd::prelude::*;

verus! {

/// Returns `Ok(())` when `cond` holds and `Err(e)` otherwise, so that a chain
/// of structural checks can be written with the `?` operator.
pub fn verify<E>(cond: bool, e: E) -> (r: Result<(), E>)
    ensures
        cond ==> r == Result::<(), E>::Ok(()),
        !cond ==> r == Result::<(), E>::Err(e),
{
    if cond {
        Ok(())
    } else {
        Err(e)
    }
}

} // verus!
