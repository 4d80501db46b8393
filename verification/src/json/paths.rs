//! Enumerating the paths of a JSON-like document.

use crate::enumerate::collect_paths;
use crate::enumerate::descend_paths;
use crate::value::TreeValue;
use vstd::prelude::*;

verus! {

/// Every path `value` contains: one per descendant node — tables, lists and
/// scalars alike — depth-first in insertion order, joined with `.`. The root
/// itself contributes no path.
pub fn get_paths(value: &TreeValue) -> (r: Vec<String>)
    ensures
        r.deep_view() == descend_paths(value@),
{
    collect_paths(value)
}

} // verus!
