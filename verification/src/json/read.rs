//! Reading the value of a JSON-like document at a path.

use crate::nav::read_value;
use crate::nav::sep_view;
use crate::nav::spec_nav;
use crate::split::spec_split;
use crate::token::tokens_ok;
use crate::value::PathError;
use crate::value::TreeValue;
use vstd::prelude::*;

verus! {

/// The node of `data` at `path`, split on `separator` (`.` when absent).
///
/// A token that matches no key or position — anywhere along the path — makes
/// the result `Ok(None)`; that is a normal outcome, never a fault. The only
/// fault is an index token whose digits overflow `usize`.
pub fn read<'a>(path: &str, data: &'a TreeValue, separator: Option<&str>) -> (r: Result<
    Option<&'a TreeValue>,
    PathError,
>)
    requires
        separator matches Some(s) ==> s@.len() > 0,
    ensures
        match r {
            Ok(found) => tokens_ok(spec_split(path@, sep_view(separator))) && (match found {
                Some(c) => spec_nav(data@, spec_split(path@, sep_view(separator))) == Some(c@),
                None => spec_nav(data@, spec_split(path@, sep_view(separator))) is None,
            }),
            Err(e) => e == PathError::MalformedIndexToken && !tokens_ok(
                spec_split(path@, sep_view(separator)),
            ),
        },
{
    read_value(path, data, separator)
}

} // verus!
