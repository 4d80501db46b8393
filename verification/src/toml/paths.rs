//! Enumerating the paths of a TOML-like document.

use crate::enumerate::collect_paths;
use crate::enumerate::descend_paths;
use crate::value::TreeValue;
use vstd::prelude::*;

verus! {

/// Every path `data` contains: one per descendant node — tables, lists and
/// scalars alike — depth-first in insertion order, joined with `.`. The root
/// table itself contributes no path.
pub fn get_paths(data: &TreeValue) -> (r: Vec<String>)
    requires
        data is Table,
    ensures
        r.deep_view() == descend_paths(data@),
{
    collect_paths(data)
}

} // verus!
