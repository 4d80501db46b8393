//! Enumerating the paths of a JSON-like document with a rooted label.

use crate::enumerate::append_descend;
use crate::enumerate::rooted_paths;
use crate::value::TreeValue;
use vstd::prelude::*;
use vstd::string::StringExecFns;

verus! {

/// The label the document root is listed under: the given symbol, or `$`.
pub open spec fn root_label(symbol: Option<String>) -> Seq<char> {
    match symbol {
        Some(s) => s@,
        None => seq!['$'],
    }
}

/// Every path `data` contains, rooted: the root itself is listed under the
/// label (the given `symbol`, or `$`), and each descendant path — one per
/// node, depth-first in insertion order, joined with `.` — follows behind the
/// label.
pub fn json_get_paths(data: &TreeValue, symbol: Option<String>) -> (r: Vec<String>)
    ensures
        r.deep_view() == rooted_paths(data@, root_label(symbol)),
{
    let ghost sym0 = symbol;
    let label = match symbol {
        Some(s) => s,
        None => String::from_str("$"),
    };
    proof {
        reveal_strlit("$");
        assert(label@ =~= root_label(sym0));
    }
    let mut out: Vec<String> = Vec::new();
    out.push(label.clone());
    proof {
        assert(out.deep_view() =~= seq![label@]);
    }
    let pre = label.concat(".");
    proof {
        reveal_strlit(".");
        assert(pre@ =~= root_label(sym0) + seq!['.']);
    }
    append_descend(data, &pre, &mut out);
    proof {
        assert(out.deep_view() =~= rooted_paths(data@, root_label(sym0)));
    }
    out
}

} // verus!
