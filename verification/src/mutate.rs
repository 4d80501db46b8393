//! In-place replacement of the value at a path.
//!
//! The parent of the final token is reached with the navigator's steps; a
//! missing key or position on the way is silent (nothing is written and no
//! value comes back). At the parent, a key token against a table replaces the
//! entry or appends a new one; an in-range index token against a list
//! replaces the element. Every other combination — an index token against a
//! table, a key token or an out-of-range index token against a list, any
//! token against a scalar — is the `ShapeMismatch` fault, and the document is
//! left as it was.

use crate::nav::find_key;
use crate::nav::lookup_key;
use crate::nav::sep_view;
use crate::nav::spec_step;
use crate::split::spec_split;
use crate::split::split_path;
use crate::token::check_tokens;
use crate::token::digits_val;
use crate::token::index_of_token;
use crate::token::index_val;
use crate::token::is_index_token;
use crate::token::parse_digits;
use crate::token::tokens_ok;
use crate::value::lemma_view_children;
use crate::value::lemma_view_entries;
use crate::value::view_children;
use crate::value::view_entries;
use crate::value::PathError;
use crate::value::SpecValue;
use crate::value::TreeValue;
use vstd::prelude::*;

verus! {

/// The model of an optional displaced value.
pub open spec fn opt_view(o: Option<TreeValue>) -> Option<SpecValue> {
    match o {
        Some(x) => Some(x@),
        None => None,
    }
}

/// `es` with the first entry keyed `k` holding `nv` instead, or with a new
/// entry `(k, nv)` appended when no entry has that key.
pub open spec fn set_entries(
    es: Seq<(Seq<char>, SpecValue)>,
    k: Seq<char>,
    nv: SpecValue,
) -> Seq<(Seq<char>, SpecValue)>
    decreases es.len(),
{
    if es.len() == 0 {
        seq![(k, nv)]
    } else if es[0].0 == k {
        seq![(es[0].0, nv)] + es.drop_first()
    } else {
        seq![es[0]] + set_entries(es.drop_first(), k, nv)
    }
}

/// The node `v` with the child that token `t` selects replaced by `c`.
pub open spec fn replace_child(v: SpecValue, t: Seq<char>, c: SpecValue) -> SpecValue {
    if is_index_token(t) {
        match v {
            SpecValue::List(xs) => SpecValue::List(xs.update(index_val(t) as int, c)),
            _ => v,
        }
    } else {
        match v {
            SpecValue::Table(es) => SpecValue::Table(set_entries(es, t, c)),
            SpecValue::List(xs) => SpecValue::List(xs.update(digits_val(t) as int, c)),
            _ => v,
        }
    }
}

/// Writing `nv` at the token path `toks` below `v`: the new tree and the
/// displaced value, absent when a token kind disagrees with the node it
/// addresses at the final step.
pub open spec fn spec_set(v: SpecValue, toks: Seq<Seq<char>>, nv: SpecValue) -> Option<
    (SpecValue, Option<SpecValue>),
>
    recommends
        toks.len() >= 1,
    decreases toks.len(),
{
    let t = toks.first();
    if toks.len() <= 1 {
        if is_index_token(t) {
            match v {
                SpecValue::List(xs) => if index_val(t) < xs.len() {
                    Some(
                        (
                            SpecValue::List(xs.update(index_val(t) as int, nv)),
                            Some(xs[index_val(t) as int]),
                        ),
                    )
                } else {
                    None
                },
                _ => None,
            }
        } else {
            match v {
                SpecValue::Table(es) => Some(
                    (SpecValue::Table(set_entries(es, t, nv)), lookup_key(es, t)),
                ),
                _ => None,
            }
        }
    } else {
        match spec_step(v, t) {
            Some(c) => match spec_set(c, toks.drop_first(), nv) {
                Some(p) => Some((replace_child(v, t, p.0), p.1)),
                None => None,
            },
            None => Some((v, None)),
        }
    }
}

/// Replacing at a key found first at position `j` updates that position.
pub proof fn lemma_set_entries_found(
    es: Seq<(Seq<char>, SpecValue)>,
    k: Seq<char>,
    nv: SpecValue,
    j: int,
)
    requires
        0 <= j < es.len(),
        es[j].0 == k,
        forall|i: int| 0 <= i < j ==> es[i].0 != k,
    ensures
        set_entries(es, k, nv) == es.update(j, (es[j].0, nv)),
    decreases j,
{
    if j == 0 {
        assert(seq![(es[0].0, nv)] + es.drop_first() =~= es.update(0, (es[0].0, nv)));
    } else {
        lemma_set_entries_found(es.drop_first(), k, nv, j - 1);
        assert(seq![es[0]] + es.drop_first().update(j - 1, (es[j].0, nv)) =~= es.update(
            j,
            (es[j].0, nv),
        ));
    }
}

/// Replacing at a key no entry has appends a new entry.
pub proof fn lemma_set_entries_missing(es: Seq<(Seq<char>, SpecValue)>, k: Seq<char>, nv: SpecValue)
    requires
        forall|i: int| 0 <= i < es.len() ==> es[i].0 != k,
    ensures
        set_entries(es, k, nv) == es.push((k, nv)),
    decreases es.len(),
{
    if es.len() == 0 {
        assert(set_entries(es, k, nv) =~= es.push((k, nv)));
    } else {
        lemma_set_entries_missing(es.drop_first(), k, nv);
        assert(seq![es[0]] + es.drop_first().push((k, nv)) =~= es.push((k, nv)));
    }
}

/// Writes `nv` at the tokens of `toks` from position `pos` on below `node`,
/// per [`spec_set`]: the new tree, and the displaced value or the fault.
fn set_at(node: TreeValue, toks: &Vec<String>, pos: usize, nv: TreeValue) -> (res: (
    TreeValue,
    Result<Option<TreeValue>, PathError>,
))
    requires
        pos < toks.len(),
        tokens_ok(toks.deep_view().skip(pos as int)),
    ensures
        match res.1 {
            Ok(displaced) => spec_set(node@, toks.deep_view().skip(pos as int), nv@) == Some(
                (res.0@, opt_view(displaced)),
            ),
            Err(e) => e == PathError::ShapeMismatch && spec_set(
                node@,
                toks.deep_view().skip(pos as int),
                nv@,
            ) is None && res.0@ == node@,
        },
    decreases toks.len() - pos,
{
    let ghost suffix = toks.deep_view().skip(pos as int);
    proof {
        assert(suffix[0] == toks.deep_view()[pos as int]);
        assert(suffix.drop_first() =~= toks.deep_view().skip(pos + 1));
    }
    let tok = &toks[pos];
    let idx = match index_of_token(tok.as_str()) {
        Ok(v) => v,
        Err(_) => {
            proof {
                assert(is_index_token(suffix[0]) && index_val(suffix[0]) > usize::MAX as nat);
                assert(false);
            }
            None
        },
    };
    let last = pos + 1 == toks.len();
    proof {
        assert(last == (suffix.len() == 1));
    }
    match node {
        TreeValue::Table(mut es) => {
            let ghost es0 = es@;
            proof {
                lemma_view_entries(es0);
            }
            if last {
                if idx.is_some() {
                    return (TreeValue::Table(es), Err(PathError::ShapeMismatch));
                }
                match find_key(&es, tok) {
                    Some(j) => {
                        let pair = es.remove(j);
                        es.insert(j, (pair.0, nv));
                        proof {
                            assert(es@ =~= es0.update(j as int, (pair.0, nv)));
                            lemma_view_entries(es@);
                            lemma_set_entries_found(view_entries(es0), tok@, nv@, j as int);
                            assert(view_entries(es@) =~= set_entries(
                                view_entries(es0),
                                tok@,
                                nv@,
                            ));
                        }
                        (TreeValue::Table(es), Ok(Some(pair.1)))
                    },
                    None => {
                        let ghost k0 = tok@;
                        es.push((tok.clone(), nv));
                        proof {
                            assert(es@ =~= es0.push((es@[es0.len() as int].0, nv)));
                            lemma_view_entries(es@);
                            lemma_set_entries_missing(view_entries(es0), k0, nv@);
                            assert(view_entries(es@) =~= set_entries(view_entries(es0), k0, nv@));
                        }
                        (TreeValue::Table(es), Ok(None))
                    },
                }
            } else {
                if idx.is_some() {
                    proof {
                        assert(spec_step(SpecValue::Table(view_entries(es0)), suffix[0]) is None);
                    }
                    return (TreeValue::Table(es), Ok(None));
                }
                match find_key(&es, tok) {
                    Some(j) => {
                        let pair = es.remove(j);
                        let (c2, r) = set_at(pair.1, toks, pos + 1, nv);
                        es.insert(j, (pair.0, c2));
                        proof {
                            assert(es@ =~= es0.update(j as int, (pair.0, c2)));
                            lemma_view_entries(es@);
                            lemma_set_entries_found(view_entries(es0), tok@, c2@, j as int);
                            assert(view_entries(es@) =~= set_entries(
                                view_entries(es0),
                                tok@,
                                c2@,
                            ));
                            assert(spec_step(SpecValue::Table(view_entries(es0)), suffix[0])
                                == Some(es0[j as int].1@));
                            if r is Err {
                                assert(view_entries(es@) =~= view_entries(es0));
                            }
                        }
                        (TreeValue::Table(es), r)
                    },
                    None => {
                        proof {
                            assert(spec_step(
                                SpecValue::Table(view_entries(es0)),
                                suffix[0],
                            ) is None);
                        }
                        (TreeValue::Table(es), Ok(None))
                    },
                }
            }
        },
        TreeValue::List(mut xs) => {
            let ghost xs0 = xs@;
            proof {
                lemma_view_children(xs0);
                vstd::std_specs::vec::axiom_spec_len(&xs);
            }
            match idx {
                Some(i) => {
                    if last {
                        if i < xs.len() {
                            let old_val = xs.remove(i);
                            xs.insert(i, nv);
                            proof {
                                assert(xs@ =~= xs0.update(i as int, xs@[i as int]));
                                lemma_view_children(xs@);
                                assert(view_children(xs@) =~= view_children(xs0).update(
                                    i as int,
                                    nv@,
                                ));
                            }
                            (TreeValue::List(xs), Ok(Some(old_val)))
                        } else {
                            (TreeValue::List(xs), Err(PathError::ShapeMismatch))
                        }
                    } else {
                        if i < xs.len() {
                            let child = xs.remove(i);
                            let (c2, r) = set_at(child, toks, pos + 1, nv);
                            xs.insert(i, c2);
                            proof {
                                assert(xs@ =~= xs0.update(i as int, c2));
                                lemma_view_children(xs@);
                                assert(view_children(xs@) =~= view_children(xs0).update(
                                    i as int,
                                    c2@,
                                ));
                                assert(spec_step(SpecValue::List(view_children(xs0)), suffix[0])
                                    == Some(xs0[i as int]@));
                                if r is Err {
                                    assert(view_children(xs@) =~= view_children(xs0));
                                }
                            }
                            (TreeValue::List(xs), r)
                        } else {
                            proof {
                                assert(spec_step(
                                    SpecValue::List(view_children(xs0)),
                                    suffix[0],
                                ) is None);
                            }
                            (TreeValue::List(xs), Ok(None))
                        }
                    }
                },
                None => {
                    if last {
                        (TreeValue::List(xs), Err(PathError::ShapeMismatch))
                    } else {
                        match parse_digits(tok.as_str()) {
                            Some(i) => {
                                if i < xs.len() {
                                    let child = xs.remove(i);
                                    let (c2, r) = set_at(child, toks, pos + 1, nv);
                                    xs.insert(i, c2);
                                    proof {
                                        assert(xs@ =~= xs0.update(i as int, c2));
                                        lemma_view_children(xs@);
                                        assert(view_children(xs@) =~= view_children(xs0).update(
                                            i as int,
                                            c2@,
                                        ));
                                        assert(spec_step(
                                            SpecValue::List(view_children(xs0)),
                                            suffix[0],
                                        ) == Some(xs0[i as int]@));
                                        if r is Err {
                                            assert(view_children(xs@) =~= view_children(xs0));
                                        }
                                    }
                                    (TreeValue::List(xs), r)
                                } else {
                                    proof {
                                        assert(spec_step(
                                            SpecValue::List(view_children(xs0)),
                                            suffix[0],
                                        ) is None);
                                    }
                                    (TreeValue::List(xs), Ok(None))
                                }
                            },
                            None => {
                                proof {
                                    assert(spec_step(
                                        SpecValue::List(view_children(xs0)),
                                        suffix[0],
                                    ) is None);
                                }
                                (TreeValue::List(xs), Ok(None))
                            },
                        }
                    }
                },
            }
        },
        other => {
            if last {
                (other, Err(PathError::ShapeMismatch))
            } else {
                proof {
                    assert(spec_step(other@, suffix[0]) is None);
                }
                (other, Ok(None))
            }
        },
    }
}

/// Replaces the value of `data` at `path`, split on `separator` (`.` when
/// absent), with `new_value`, and returns the displaced value.
///
/// A missing key or position on the way to the parent writes nothing and
/// returns `Ok(None)`; a key token against a table that lacks it creates the
/// entry. The faults leave `data` unchanged: `ShapeMismatch` when the final
/// token's kind disagrees with its parent node, `MalformedIndexToken` when an
/// index token overflows `usize`.
pub fn update_value(
    data: &mut TreeValue,
    path: &str,
    separator: Option<&str>,
    new_value: TreeValue,
) -> (r: Result<Option<TreeValue>, PathError>)
    requires
        separator matches Some(s) ==> s@.len() > 0,
    ensures
        match r {
            Ok(displaced) => tokens_ok(spec_split(path@, sep_view(separator))) && spec_set(
                old(data)@,
                spec_split(path@, sep_view(separator)),
                new_value@,
            ) == Some((final(data)@, opt_view(displaced))),
            Err(PathError::ShapeMismatch) => tokens_ok(spec_split(path@, sep_view(separator)))
                && spec_set(old(data)@, spec_split(path@, sep_view(separator)), new_value@) is None
                && final(data)@ == old(data)@,
            Err(PathError::MalformedIndexToken) => !tokens_ok(
                spec_split(path@, sep_view(separator)),
            ) && final(data)@ == old(data)@,
        },
{
    let sep: &str = match separator {
        Some(s) => s,
        None => ".",
    };
    proof {
        reveal_strlit(".");
        assert(sep@ =~= sep_view(separator));
    }
    let toks = split_path(path, sep);
    match check_tokens(&toks) {
        Err(e) => Err(e),
        Ok(()) => {
            proof {
                assert(toks.deep_view().skip(0) =~= toks.deep_view());
            }
            let mut root = TreeValue::Null;
            core::mem::swap(data, &mut root);
            let (root2, r) = set_at(root, &toks, 0, new_value);
            *data = root2;
            r
        },
    }
}

} // verus!
