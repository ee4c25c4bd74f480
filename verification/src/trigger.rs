//! When a search is due.

use vstd::prelude::*;

verus! {

/// Whether a new crawl-and-score pass is due, given how many keys are
/// held down at the moment: it is as soon as any key is.
pub fn is_any_key_down(keys_down: usize) -> (down: bool)
    ensures
        down == (keys_down > 0),
{
    keys_down > 0
}

} // verus!
