//! Enumerating every path a document contains.
//!
//! The traversal is depth-first in insertion order: each table entry and each
//! list element contributes its own path and then, when it is a container,
//! the paths of its children, before its next sibling. Every node — table,
//! list or scalar — contributes one path. Paths are joined with the default
//! separator `.`; a list element is labeled by its position written in
//! decimal, so enumerated paths read back through the navigator's digit-run
//! rule.

use crate::token::dec_str;
use crate::token::usize_to_dec;
use crate::value::lemma_view_children;
use crate::value::lemma_view_entries;
use crate::value::view_children;
use crate::value::view_entries;
use crate::value::SpecValue;
use crate::value::TreeValue;
use vstd::prelude::*;
use vstd::string::StringExecFns;

verus! {

/// Every path of `ps` with `pre` in front.
pub open spec fn prefixed(pre: Seq<char>, ps: Seq<Seq<char>>) -> Seq<Seq<char>> {
    Seq::new(ps.len(), |i: int| pre + ps[i])
}

/// The paths of every strict descendant of `v`, relative to `v`.
pub open spec fn descend_paths(v: SpecValue) -> Seq<Seq<char>>
    decreases v,
{
    match v {
        SpecValue::Table(es) => table_paths(es),
        SpecValue::List(xs) => list_paths(xs),
        _ => Seq::empty(),
    }
}

/// The paths below a table's entries: for each entry in order, its key, then
/// its descendants' paths behind the key.
pub open spec fn table_paths(es: Seq<(Seq<char>, SpecValue)>) -> Seq<Seq<char>>
    decreases es,
{
    if es.len() == 0 {
        Seq::empty()
    } else {
        table_paths(es.drop_last()) + seq![es.last().0] + prefixed(
            es.last().0 + seq!['.'],
            descend_paths(es.last().1),
        )
    }
}

/// The paths below a list's elements: for each position in order, its
/// decimal label, then its descendants' paths behind the label.
pub open spec fn list_paths(xs: Seq<SpecValue>) -> Seq<Seq<char>>
    decreases xs,
{
    if xs.len() == 0 {
        Seq::empty()
    } else {
        list_paths(xs.drop_last()) + seq![dec_str((xs.len() - 1) as nat)] + prefixed(
            dec_str((xs.len() - 1) as nat) + seq!['.'],
            descend_paths(xs.last()),
        )
    }
}

/// The rooted paths of `v`: the label itself, then every descendant path
/// behind the label.
pub open spec fn rooted_paths(v: SpecValue, label: Seq<char>) -> Seq<Seq<char>> {
    seq![label] + prefixed(label + seq!['.'], descend_paths(v))
}

/// Appends to `out` every descendant path of `node` behind `prefix`.
#[verifier::loop_isolation(false)]
pub(crate) fn append_descend(node: &TreeValue, prefix: &String, out: &mut Vec<String>)
    ensures
        final(out).deep_view() == old(out).deep_view() + prefixed(
            prefix@,
            descend_paths(node@),
        ),
    decreases node,
{
    let ghost base = out.deep_view();
    match node {
        TreeValue::Table(es) => {
            proof {
                lemma_view_entries(es@);
            }
            let mut j: usize = 0;
            while j < es.len()
                invariant
                    j <= es.len(),
                    out.deep_view() == base + prefixed(
                        prefix@,
                        table_paths(view_entries(es@).take(j as int)),
                    ),
                decreases es.len() - j,
            {
                let ghost snap = out.deep_view();
                let ghost evs = view_entries(es@);
                let label = prefix.clone().concat(es[j].0.as_str());
                out.push(label.clone());
                let ghost mid = out.deep_view();
                proof {
                    assert(mid =~= snap.push(label@));
                }
                let child_pre = label.concat(".");
                proof {
                    reveal_strlit(".");
                    assert(child_pre@ =~= prefix@ + evs[j as int].0 + seq!['.']);
                }
                append_descend(&es[j].1, &child_pre, out);
                proof {
                    let key = evs[j as int].0;
                    let child = evs[j as int].1;
                    assert(evs.take(j + 1).drop_last() =~= evs.take(j as int));
                    assert(evs.take(j + 1).last() == evs[j as int]);
                    assert(table_paths(evs.take(j + 1)) == table_paths(evs.take(j as int))
                        + seq![key] + prefixed(key + seq!['.'], descend_paths(child)));
                    assert(out.deep_view() == mid + prefixed(child_pre@, descend_paths(child)));
                    assert(prefixed(child_pre@, descend_paths(child)) =~~= prefixed(
                        prefix@,
                        prefixed(key + seq!['.'], descend_paths(child)),
                    ));
                    assert(out.deep_view() =~~= base + prefixed(
                        prefix@,
                        table_paths(evs.take(j + 1)),
                    ));
                }
                j += 1;
            }
            proof {
                assert(view_entries(es@).take(es@.len() as int) =~= view_entries(es@));
            }
        },
        TreeValue::List(xs) => {
            proof {
                lemma_view_children(xs@);
            }
            let mut j: usize = 0;
            while j < xs.len()
                invariant
                    j <= xs.len(),
                    out.deep_view() == base + prefixed(
                        prefix@,
                        list_paths(view_children(xs@).take(j as int)),
                    ),
                decreases xs.len() - j,
            {
                let ghost snap = out.deep_view();
                let ghost cvs = view_children(xs@);
                let dec = usize_to_dec(j);
                let label = prefix.clone().concat(dec.as_str());
                out.push(label.clone());
                let ghost mid = out.deep_view();
                proof {
                    assert(mid =~= snap.push(label@));
                }
                let child_pre = label.concat(".");
                proof {
                    reveal_strlit(".");
                    assert(child_pre@ =~= prefix@ + dec_str(j as nat) + seq!['.']);
                }
                append_descend(&xs[j], &child_pre, out);
                proof {
                    let child = cvs[j as int];
                    assert(cvs.take(j + 1).drop_last() =~= cvs.take(j as int));
                    assert(cvs.take(j + 1).last() == cvs[j as int]);
                    assert(cvs.take(j + 1).len() == j + 1);
                    assert(list_paths(cvs.take(j + 1)) == list_paths(cvs.take(j as int))
                        + seq![dec_str(j as nat)] + prefixed(
                        dec_str(j as nat) + seq!['.'],
                        descend_paths(child),
                    ));
                    assert(out.deep_view() == mid + prefixed(child_pre@, descend_paths(child)));
                    assert(prefixed(child_pre@, descend_paths(child)) =~~= prefixed(
                        prefix@,
                        prefixed(dec_str(j as nat) + seq!['.'], descend_paths(child)),
                    ));
                    assert(out.deep_view() =~~= base + prefixed(
                        prefix@,
                        list_paths(cvs.take(j + 1)),
                    ));
                }
                j += 1;
            }
            proof {
                assert(view_children(xs@).take(xs@.len() as int) =~= view_children(xs@));
            }
        },
        _ => {
            proof {
                assert(out.deep_view() =~~= base + prefixed(prefix@, descend_paths(node@)));
            }
        },
    }
}

/// The descendant paths of `node`, in depth-first insertion order.
pub fn collect_paths(node: &TreeValue) -> (r: Vec<String>)
    ensures
        r.deep_view() == descend_paths(node@),
{
    let mut out: Vec<String> = Vec::new();
    let pre = String::new();
    proof {
        assert(out.deep_view() =~= Seq::<Seq<char>>::empty());
    }
    append_descend(node, &pre, &mut out);
    proof {
        assert(out.deep_view() =~~= descend_paths(node@));
    }
    out
}

} // verus!
