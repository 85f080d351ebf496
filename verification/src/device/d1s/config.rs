use vstd::prelude::*;

verus! {

/// The board's timer clock frequency in Hz.
pub fn init() -> (r: usize)
    ensures
        r == 24_000_000,
{
    24_000_000
}

} // verus!
