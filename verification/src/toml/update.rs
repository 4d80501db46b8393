//! Replacing the value of a TOML-like document at a path.

use crate::mutate::opt_view;
use crate::mutate::spec_set;
use crate::mutate::update_value;
use crate::nav::sep_view;
use crate::split::spec_split;
use crate::token::tokens_ok;
use crate::value::PathError;
use crate::value::TreeValue;
use vstd::prelude::*;

verus! {

/// Replaces the value of the root table `data` at `path`, split on
/// `separator` (`.` when absent), with `new_value`, and returns the displaced
/// value.
///
/// A missing key or position on the way to the final token's parent writes
/// nothing and returns `Ok(None)`; a key token against a table that lacks it
/// creates the entry and returns `Ok(None)`. The faults leave `data`
/// unchanged: `ShapeMismatch` when the final token's kind disagrees with its
/// parent node, `MalformedIndexToken` when an index token overflows `usize`.
pub fn update(
    data: &mut TreeValue,
    path: &str,
    separator: Option<&str>,
    new_value: TreeValue,
) -> (r: Result<Option<TreeValue>, PathError>)
    requires
        *old(data) is Table,
        separator matches Some(s) ==> s@.len() > 0,
    ensures
        match r {
            Ok(displaced) => tokens_ok(spec_split(path@, sep_view(separator))) && spec_set(
                old(data)@,
                spec_split(path@, sep_view(separator)),
                new_value@,
            ) == Some((final(data)@, opt_view(displaced))),
            Err(PathError::ShapeMismatch) => tokens_ok(spec_split(path@, sep_view(separator)))
                && spec_set(old(data)@, spec_split(path@, sep_view(separator)), new_value@) is None
                && final(data)@ == old(data)@,
            Err(PathError::MalformedIndexToken) => !tokens_ok(
                spec_split(path@, sep_view(separator)),
            ) && final(data)@ == old(data)@,
        },
{
    update_value(data, path, separator, new_value)
}

} // verus!
