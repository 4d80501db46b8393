//! Stepwise navigation from a root node along a token sequence.
//!
//! Each token is classified and applied to the current node: an index token
//! selects a list position; a key token selects a table entry, or — so that
//! enumerated list paths read back — a list position when the key is a bare
//! digit run. Any step that finds nothing makes the whole walk absent;
//! absence is never a fault here.

use crate::split::spec_split;
use crate::split::split_path;
use crate::token::check_tokens;
use crate::token::digits_val;
use crate::token::index_of_token;
use crate::token::index_val;
use crate::token::is_digits;
use crate::token::is_index_token;
use crate::token::parse_digits;
use crate::token::tokens_ok;
use crate::value::lemma_view_children;
use crate::value::lemma_view_entries;
use crate::value::PathError;
use crate::value::SpecValue;
use crate::value::TreeValue;
use vstd::prelude::*;

verus! {

/// The value under the first entry of `es` whose key is `k`, if any.
pub open spec fn lookup_key(es: Seq<(Seq<char>, SpecValue)>, k: Seq<char>) -> Option<SpecValue>
    decreases es.len(),
{
    if es.len() == 0 {
        None
    } else if es[0].0 == k {
        Some(es[0].1)
    } else {
        lookup_key(es.drop_first(), k)
    }
}

/// The child of `v` that the token `t` selects, if any.
pub open spec fn spec_step(v: SpecValue, t: Seq<char>) -> Option<SpecValue> {
    if is_index_token(t) {
        match v {
            SpecValue::List(xs) => if index_val(t) < xs.len() {
                Some(xs[index_val(t) as int])
            } else {
                None
            },
            _ => None,
        }
    } else {
        match v {
            SpecValue::Table(es) => lookup_key(es, t),
            SpecValue::List(xs) => if is_digits(t) && digits_val(t) < xs.len() {
                Some(xs[digits_val(t) as int])
            } else {
                None
            },
            _ => None,
        }
    }
}

/// The node reached from `v` by taking every token of `toks` in order.
pub open spec fn spec_nav(v: SpecValue, toks: Seq<Seq<char>>) -> Option<SpecValue>
    decreases toks.len(),
{
    if toks.len() == 0 {
        Some(v)
    } else {
        match spec_step(v, toks.first()) {
            Some(c) => spec_nav(c, toks.drop_first()),
            None => None,
        }
    }
}

/// The separator in force: the given one, or `.`.
pub open spec fn sep_view(separator: Option<&str>) -> Seq<char> {
    match separator {
        Some(s) => s@,
        None => seq!['.'],
    }
}

/// A key found at the first position `j` with no earlier match is what
/// `lookup_key` returns.
pub proof fn lemma_lookup_at(es: Seq<(Seq<char>, SpecValue)>, k: Seq<char>, j: int)
    requires
        0 <= j < es.len(),
        es[j].0 == k,
        forall|i: int| 0 <= i < j ==> es[i].0 != k,
    ensures
        lookup_key(es, k) == Some(es[j].1),
    decreases j,
{
    if j > 0 {
        lemma_lookup_at(es.drop_first(), k, j - 1);
    }
}

/// A key matching no entry is what `lookup_key` misses.
pub proof fn lemma_lookup_none(es: Seq<(Seq<char>, SpecValue)>, k: Seq<char>)
    requires
        forall|i: int| 0 <= i < es.len() ==> es[i].0 != k,
    ensures
        lookup_key(es, k) is None,
    decreases es.len(),
{
    if es.len() > 0 {
        lemma_lookup_none(es.drop_first(), k);
    }
}

/// The first entry of `es` keyed by `k`, scanning from the front.
pub fn find_key(es: &Vec<(String, TreeValue)>, k: &String) -> (r: Option<usize>)
    ensures
        match r {
            Some(j) => j < es.len() && es@[j as int].0@ == k@ && (forall|i: int|
                0 <= i < j ==> es@[i].0@ != k@) && lookup_key(
                crate::value::view_entries(es@),
                k@,
            ) == Some(es@[j as int].1@),
            None => (forall|i: int| 0 <= i < es.len() ==> es@[i].0@ != k@) && lookup_key(
                crate::value::view_entries(es@),
                k@,
            ) is None,
        },
{
    let mut j: usize = 0;
    while j < es.len()
        invariant
            j <= es.len(),
            forall|i: int| 0 <= i < j ==> es@[i].0@ != k@,
        decreases es.len() - j,
    {
        if es[j].0 == *k {
            proof {
                lemma_view_entries(es@);
                lemma_lookup_at(crate::value::view_entries(es@), k@, j as int);
            }
            return Some(j);
        }
        j += 1;
    }
    proof {
        lemma_view_entries(es@);
        lemma_lookup_none(crate::value::view_entries(es@), k@);
    }
    None
}

/// The node reached from `node` by the tokens of `toks` from position `pos`
/// on, per [`spec_nav`].
pub fn nav_at<'a>(node: &'a TreeValue, toks: &Vec<String>, pos: usize) -> (r: Option<
    &'a TreeValue,
>)
    requires
        pos <= toks.len(),
        tokens_ok(toks.deep_view().skip(pos as int)),
    ensures
        match r {
            Some(c) => spec_nav(node@, toks.deep_view().skip(pos as int)) == Some(c@),
            None => spec_nav(node@, toks.deep_view().skip(pos as int)) is None,
        },
    decreases toks.len() - pos,
{
    let ghost suffix = toks.deep_view().skip(pos as int);
    if pos == toks.len() {
        proof {
            assert(suffix =~= Seq::<Seq<char>>::empty());
        }
        return Some(node);
    }
    let tok = &toks[pos];
    proof {
        assert(suffix[0] == toks.deep_view()[pos as int]);
        assert(suffix.drop_first() =~= toks.deep_view().skip(pos + 1));
    }
    let idx = match index_of_token(tok.as_str()) {
        Ok(v) => v,
        Err(_) => {
            proof {
                assert(is_index_token(suffix[0]) && index_val(suffix[0]) > usize::MAX as nat);
                assert(false);
            }
            None
        },
    };
    match node {
        TreeValue::Table(es) => {
            if idx.is_some() {
                proof {
                    assert(node@ == SpecValue::Table(crate::value::view_entries(es@)));
                    assert(spec_step(node@, suffix[0]) is None);
                }
                return None;
            }
            match find_key(es, tok) {
                Some(j) => {
                    proof {
                        lemma_view_entries(es@);
                        assert(node@ == SpecValue::Table(crate::value::view_entries(es@)));
                        assert(spec_step(node@, suffix[0]) == Some(es@[j as int].1@));
                        assert(spec_nav(node@, suffix) == spec_nav(
                            es@[j as int].1@,
                            suffix.drop_first(),
                        ));
                    }
                    nav_at(&es[j].1, toks, pos + 1)
                },
                None => {
                    proof {
                        assert(node@ == SpecValue::Table(crate::value::view_entries(es@)));
                        assert(spec_step(node@, suffix[0]) is None);
                    }
                    None
                },
            }
        },
        TreeValue::List(xs) => {
            match idx {
                Some(i) => {
                    if i < xs.len() {
                        proof {
                            lemma_view_children(xs@);
                            assert(node@ == SpecValue::List(crate::value::view_children(xs@)));
                            assert(spec_step(node@, suffix[0]) == Some(xs@[i as int]@));
                            assert(spec_nav(node@, suffix) == spec_nav(
                                xs@[i as int]@,
                                suffix.drop_first(),
                            ));
                        }
                        nav_at(&xs[i], toks, pos + 1)
                    } else {
                        proof {
                            lemma_view_children(xs@);
                            assert(node@ == SpecValue::List(crate::value::view_children(xs@)));
                            assert(spec_step(node@, suffix[0]) is None);
                        }
                        None
                    }
                },
                None => {
                    match parse_digits(tok.as_str()) {
                        Some(i) => {
                            if i < xs.len() {
                                proof {
                                    lemma_view_children(xs@);
                                    assert(node@ == SpecValue::List(
                                        crate::value::view_children(xs@),
                                    ));
                                    assert(spec_step(node@, suffix[0]) == Some(xs@[i as int]@));
                                    assert(spec_nav(node@, suffix) == spec_nav(
                                        xs@[i as int]@,
                                        suffix.drop_first(),
                                    ));
                                }
                                nav_at(&xs[i], toks, pos + 1)
                            } else {
                                proof {
                                    lemma_view_children(xs@);
                                    assert(node@ == SpecValue::List(
                                        crate::value::view_children(xs@),
                                    ));
                                    assert(spec_step(node@, suffix[0]) is None);
                                }
                                None
                            }
                        },
                        None => {
                            proof {
                                lemma_view_children(xs@);
                                vstd::std_specs::vec::axiom_spec_len(xs);
                                assert(node@ == SpecValue::List(crate::value::view_children(xs@)));
                                assert(spec_step(node@, suffix[0]) is None);
                            }
                            None
                        },
                    }
                },
            }
        },
        _ => None,
    }
}

/// The node of `data` at `path`, split on `separator` (`.` when absent).
///
/// Absence — any token that matches no key or position — is the `Ok(None)`
/// outcome; the only fault is an index token whose digits overflow `usize`.
pub fn read_value<'a>(path: &str, data: &'a TreeValue, separator: Option<&str>) -> (r: Result<
    Option<&'a TreeValue>,
    PathError,
>)
    requires
        separator matches Some(s) ==> s@.len() > 0,
    ensures
        match r {
            Ok(found) => tokens_ok(spec_split(path@, sep_view(separator))) && (match found {
                Some(c) => spec_nav(data@, spec_split(path@, sep_view(separator))) == Some(c@),
                None => spec_nav(data@, spec_split(path@, sep_view(separator))) is None,
            }),
            Err(e) => e == PathError::MalformedIndexToken && !tokens_ok(
                spec_split(path@, sep_view(separator)),
            ),
        },
{
    let sep: &str = match separator {
        Some(s) => s,
        None => ".",
    };
    proof {
        reveal_strlit(".");
        assert(sep@ =~= sep_view(separator));
    }
    let toks = split_path(path, sep);
    match check_tokens(&toks) {
        Err(e) => Err(e),
        Ok(()) => {
            proof {
                assert(toks.deep_view().skip(0) =~= toks.deep_view());
            }
            Ok(nav_at(data, &toks, 0))
        },
    }
}

} // verus!
