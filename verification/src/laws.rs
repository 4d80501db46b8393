//! Laws relating reading, updating and enumeration.
//!
//! Each law is stated over the models that the public contracts use:
//! [`crate::nav::spec_nav`] for reading, [`crate::mutate::spec_set`] for
//! updating, and [`crate::enumerate::descend_paths`] for enumeration.

use crate::enumerate::descend_paths;
use crate::enumerate::list_paths;
use crate::enumerate::prefixed;
use crate::enumerate::table_paths;
use crate::mutate::replace_child;
use crate::mutate::set_entries;
use crate::mutate::spec_set;
use crate::nav::lookup_key;
use crate::nav::spec_nav;
use crate::nav::spec_step;
use crate::split::occurs_at;
use crate::split::spec_split;
use crate::token::dec_str;
use crate::token::is_index_token;
use crate::token::lemma_dec_str;
use crate::token::tokens_ok;
use crate::value::SpecValue;
use vstd::prelude::*;

verus! {

/// A table key that enumeration can address: it holds no separator character
/// and is not mistakable for an index token.
pub open spec fn key_ok(k: Seq<char>) -> bool {
    (forall|i: int| 0 <= i < k.len() ==> k[i] != '.') && !is_index_token(k)
}

/// Every table of `v` has addressable, pairwise distinct keys.
pub open spec fn paths_wf(v: SpecValue) -> bool
    decreases v,
{
    match v {
        SpecValue::Table(es) => (forall|i: int| 0 <= i < es.len() ==> key_ok(#[trigger] es[i].0))
            && (forall|i: int, j: int| 0 <= i < j < es.len() ==> es[i].0 != es[j].0) && (forall|
            i: int,
        |
            0 <= i < es.len() ==> paths_wf(#[trigger] es[i].1)),
        SpecValue::List(xs) => forall|i: int| 0 <= i < xs.len() ==> paths_wf(#[trigger] xs[i]),
        _ => true,
    }
}

/// A string free of the separator character splits into itself alone.
pub proof fn lemma_split_single(k: Seq<char>)
    requires
        forall|i: int| 0 <= i < k.len() ==> k[i] != '.',
    ensures
        spec_split(k, seq!['.']) == seq![k],
{
    assert forall|i: int| !occurs_at(k, seq!['.'], i) by {
        if occurs_at(k, seq!['.'], i) {
            assert(k.subrange(i, i + 1)[0] == k[i]);
        }
    }
    crate::split::lemma_split_none(k, seq!['.']);
}

/// Splitting a separator-free token, a separator, and a remainder yields the
/// token followed by the split of the remainder.
pub proof fn lemma_split_prepend(k: Seq<char>, rest: Seq<char>)
    requires
        forall|i: int| 0 <= i < k.len() ==> k[i] != '.',
    ensures
        spec_split(k + seq!['.'] + rest, seq!['.']) == seq![k] + spec_split(rest, seq!['.']),
{
    let s = k + seq!['.'] + rest;
    let n = k.len() as int;
    assert(occurs_at(s, seq!['.'], n)) by {
        assert(s[n] == '.');
        assert(s.subrange(n, n + 1) =~= seq!['.']);
    }
    assert forall|i: int| 0 <= i < n implies !occurs_at(s, seq!['.'], i) by {
        if occurs_at(s, seq!['.'], i) {
            assert(s.subrange(i, i + 1)[0] == s[i]);
            assert(s[i] == k[i]);
        }
    }
    crate::split::lemma_split_at(s, seq!['.'], n);
    assert(s.subrange(0, n) =~= k);
    assert(s.skip(n + 1) =~= rest);
}

/// A key present at position `j` is found by `lookup_key`.
pub proof fn lemma_lookup_present(es: Seq<(Seq<char>, SpecValue)>, j: int)
    requires
        0 <= j < es.len(),
    ensures
        lookup_key(es, es[j].0) is Some,
    decreases j,
{
    if j > 0 && es[0].0 != es[j].0 {
        lemma_lookup_present(es.drop_first(), j - 1);
    }
}

/// One entry's contribution to a table's paths: the key itself, or the key,
/// the separator, and a descendant path of its child.
pub open spec fn entry_path(e: (Seq<char>, SpecValue), p: Seq<char>) -> bool {
    p == e.0 || exists|q: Seq<char>|
        descend_paths(e.1).contains(q) && p == e.0 + seq!['.'] + q
}

/// One element's contribution to a list's paths: the position's decimal
/// label, or the label, the separator, and a descendant path of the element.
pub open spec fn elem_path(x: SpecValue, j: int, p: Seq<char>) -> bool {
    p == dec_str(j as nat) || exists|q: Seq<char>|
        descend_paths(x).contains(q) && p == dec_str(j as nat) + seq!['.'] + q
}

/// Every path a table enumerates comes from one of its entries.
pub proof fn lemma_table_paths_member(es: Seq<(Seq<char>, SpecValue)>, p: Seq<char>)
    requires
        table_paths(es).contains(p),
    ensures
        exists|j: int| 0 <= j < es.len() && #[trigger] entry_path(es[j], p),
    decreases es.len(),
{
    let a = table_paths(es.drop_last());
    let key = es.last().0;
    let c = prefixed(key + seq!['.'], descend_paths(es.last().1));
    assert(table_paths(es) == a + seq![key] + c);
    let i = choose|i: int| 0 <= i < table_paths(es).len() && table_paths(es)[i] == p;
    if i < a.len() {
        assert(a[i] == p);
        assert(a.contains(p));
        lemma_table_paths_member(es.drop_last(), p);
        let j = choose|j: int| 0 <= j < es.drop_last().len() && entry_path(es.drop_last()[j], p);
        assert(es.drop_last()[j] == es[j]);
        assert(entry_path(es[j], p));
    } else if i == a.len() {
        assert(p == key);
        assert(entry_path(es.last(), p));
        assert(es.last() == es[es.len() - 1]);
    } else {
        let q = descend_paths(es.last().1)[i - a.len() - 1];
        assert(c[i - a.len() - 1] == p);
        assert(p == (key + seq!['.']) + q);
        assert(p == key + seq!['.'] + q);
        assert(descend_paths(es.last().1).contains(q));
        assert(entry_path(es.last(), p));
        assert(es.last() == es[es.len() - 1]);
    }
}

/// Every path a list enumerates comes from one of its positions.
pub proof fn lemma_list_paths_member(xs: Seq<SpecValue>, p: Seq<char>)
    requires
        list_paths(xs).contains(p),
    ensures
        exists|j: int| 0 <= j < xs.len() && #[trigger] elem_path(xs[j], j, p),
    decreases xs.len(),
{
    let a = list_paths(xs.drop_last());
    let last_ix = xs.len() - 1;
    let label = dec_str(last_ix as nat);
    let c = prefixed(label + seq!['.'], descend_paths(xs.last()));
    assert(list_paths(xs) == a + seq![label] + c);
    let i = choose|i: int| 0 <= i < list_paths(xs).len() && list_paths(xs)[i] == p;
    if i < a.len() {
        assert(a[i] == p);
        assert(a.contains(p));
        lemma_list_paths_member(xs.drop_last(), p);
        let j = choose|j: int| 0 <= j < xs.drop_last().len() && elem_path(xs.drop_last()[j], j, p);
        assert(xs.drop_last()[j] == xs[j]);
        assert(elem_path(xs[j], j, p));
    } else if i == a.len() {
        assert(p == label);
        assert(elem_path(xs[last_ix], last_ix, p));
    } else {
        let q = descend_paths(xs.last())[i - a.len() - 1];
        assert(c[i - a.len() - 1] == p);
        assert(p == (label + seq!['.']) + q);
        assert(p == label + seq!['.'] + q);
        assert(descend_paths(xs.last()).contains(q));
        assert(elem_path(xs[last_ix], last_ix, p));
    }
}

/// A decimal label is an addressable key: no separator, and no index-token
/// shape.
pub proof fn lemma_dec_str_key_ok(j: nat)
    ensures
        key_ok(dec_str(j)),
        crate::token::is_digits(dec_str(j)),
        crate::token::digits_val(dec_str(j)) == j,
{
    lemma_dec_str(j);
    assert forall|i: int| 0 <= i < dec_str(j).len() implies dec_str(j)[i] != '.' by {
        assert(crate::token::is_digit(dec_str(j)[i]));
    }
    if is_index_token(dec_str(j)) {
        assert(crate::token::is_digit(dec_str(j)[0]));
    }
}

/// The well-formedness of a table's entries, spelled out: addressable keys,
/// pairwise distinct, well-formed children.
pub open spec fn entries_wf(es: Seq<(Seq<char>, SpecValue)>) -> bool {
    (forall|i: int| 0 <= i < es.len() ==> key_ok(#[trigger] es[i].0)) && (forall|i: int, j: int|
        0 <= i < j < es.len() ==> es[i].0 != es[j].0) && (forall|i: int|
        0 <= i < es.len() ==> paths_wf(#[trigger] es[i].1))
}

/// Some entry of `es` is keyed `k`.
pub open spec fn has_key(es: Seq<(Seq<char>, SpecValue)>, k: Seq<char>) -> bool {
    exists|j: int| 0 <= j < es.len() && es[j].0 == k
}

/// Replacing at an addressable key with a well-formed value keeps a table's
/// entries well-formed, and introduces no key but possibly `k`.
pub proof fn lemma_set_entries_wf(es: Seq<(Seq<char>, SpecValue)>, k: Seq<char>, nv: SpecValue)
    requires
        entries_wf(es),
        key_ok(k),
        paths_wf(nv),
    ensures
        entries_wf(set_entries(es, k, nv)),
        forall|i: int|
            0 <= i < set_entries(es, k, nv).len() ==> (#[trigger] set_entries(es, k, nv)[i].0) == k
                || has_key(es, set_entries(es, k, nv)[i].0),
    decreases es.len(),
{
    let r = set_entries(es, k, nv);
    if es.len() == 0 {
        assert(r == seq![(k, nv)]);
        assert(r[0].0 == k);
    } else if es[0].0 == k {
        assert(r == seq![(es[0].0, nv)] + es.drop_first());
        assert(r.len() == es.len());
        assert forall|i: int| 0 <= i < r.len() implies r[i].0 == es[i].0 by {
            if i > 0 {
                assert(r[i] == es.drop_first()[i - 1]);
            }
        }
        assert forall|i: int| 0 <= i < r.len() implies paths_wf(#[trigger] r[i].1) by {
            if i > 0 {
                assert(r[i] == es[i]);
            }
        }
        assert forall|i: int| 0 <= i < r.len() implies has_key(es, #[trigger] r[i].0) by {
            assert(es[i].0 == r[i].0);
        }
    } else {
        let d = es.drop_first();
        assert(entries_wf(d)) by {
            assert forall|i: int| 0 <= i < d.len() implies key_ok(#[trigger] d[i].0) && paths_wf(
                d[i].1,
            ) by {
                assert(d[i] == es[i + 1]);
            }
            assert forall|i: int, j: int| 0 <= i < j < d.len() implies d[i].0 != d[j].0 by {
                assert(d[i] == es[i + 1] && d[j] == es[j + 1]);
            }
        }
        lemma_set_entries_wf(d, k, nv);
        let rd = set_entries(d, k, nv);
        assert(r == seq![es[0]] + rd);
        assert forall|i: int| 0 <= i < r.len() implies key_ok(#[trigger] r[i].0) && paths_wf(
            r[i].1,
        ) by {
            if i > 0 {
                assert(r[i] == rd[i - 1]);
                if rd[i - 1].0 == k {
                } else {
                    let j = choose|j: int| 0 <= j < d.len() && d[j].0 == rd[i - 1].0;
                    assert(d[j] == es[j + 1]);
                }
            }
        }
        assert forall|i: int, j: int| 0 <= i < j < r.len() implies r[i].0 != r[j].0 by {
            if i == 0 {
                assert(r[j] == rd[j - 1]);
                if rd[j - 1].0 == k {
                    assert(es[0].0 != k);
                } else {
                    let j2 = choose|j2: int| 0 <= j2 < d.len() && d[j2].0 == rd[j - 1].0;
                    assert(d[j2] == es[j2 + 1]);
                }
            } else {
                assert(r[i] == rd[i - 1] && r[j] == rd[j - 1]);
            }
        }
        assert forall|i: int| 0 <= i < r.len() implies (#[trigger] r[i].0) == k || has_key(
            es,
            r[i].0,
        ) by {
            if i == 0 {
                assert(es[0].0 == r[0].0);
            } else {
                assert(r[i] == rd[i - 1]);
                if rd[i - 1].0 != k {
                    let j = choose|j: int| 0 <= j < d.len() && d[j].0 == rd[i - 1].0;
                    assert(es[j + 1].0 == r[i].0);
                }
            }
        }
    }
}

/// Replacing the child a token selects with a well-formed value keeps the
/// node well-formed, provided the token is an addressable key or an index.
pub proof fn lemma_replace_child_wf(v: SpecValue, t: Seq<char>, c: SpecValue)
    requires
        paths_wf(v),
        paths_wf(c),
        key_ok(t) || is_index_token(t),
        spec_step(v, t) is Some,
    ensures
        paths_wf(replace_child(v, t, c)),
{
    if is_index_token(t) {
        match v {
            SpecValue::List(xs) => {
                let xs2 = xs.update(crate::token::index_val(t) as int, c);
                assert forall|i: int| 0 <= i < xs2.len() implies paths_wf(#[trigger] xs2[i]) by {
                    if i != crate::token::index_val(t) as int {
                        assert(xs2[i] == xs[i]);
                    }
                }
            },
            _ => {},
        }
    } else {
        match v {
            SpecValue::Table(es) => {
                lemma_set_entries_wf(es, t, c);
            },
            SpecValue::List(xs) => {
                let xs2 = xs.update(crate::token::digits_val(t) as int, c);
                assert forall|i: int| 0 <= i < xs2.len() implies paths_wf(#[trigger] xs2[i]) by {
                    if i != crate::token::digits_val(t) as int {
                        assert(xs2[i] == xs[i]);
                    }
                }
            },
            _ => {},
        }
    }
}

/// An update whose tokens are addressable keys or indices keeps the
/// document's tables well-formed: keys stay pairwise distinct and
/// addressable, so enumeration of the updated document still reads back.
pub proof fn lemma_update_preserves_wf(v: SpecValue, toks: Seq<Seq<char>>, nv: SpecValue)
    requires
        toks.len() >= 1,
        paths_wf(v),
        paths_wf(nv),
        forall|i: int|
            0 <= i < toks.len() ==> key_ok(#[trigger] toks[i]) || is_index_token(toks[i]),
    ensures
        spec_set(v, toks, nv) matches Some(p) ==> paths_wf(p.0),
    decreases toks.len(),
{
    if spec_set(v, toks, nv) is Some {
        let t = toks.first();
        assert(key_ok(t) || is_index_token(t));
        if toks.len() == 1 {
            if is_index_token(t) {
                match v {
                    SpecValue::List(xs) => {
                        assert(spec_step(v, t) is Some);
                        lemma_replace_child_wf(v, t, nv);
                        assert(spec_set(v, toks, nv).unwrap().0 == replace_child(v, t, nv));
                    },
                    _ => {},
                }
            } else {
                match v {
                    SpecValue::Table(es) => {
                        lemma_set_entries_wf(es, t, nv);
                    },
                    _ => {},
                }
            }
        } else {
            match spec_step(v, t) {
                Some(c) => {
                    assert(paths_wf(c)) by {
                        if is_index_token(t) {
                            match v {
                                SpecValue::List(xs) => {},
                                _ => {},
                            }
                        } else {
                            match v {
                                SpecValue::Table(es) => {
                                    lemma_lookup_witness(es, t);
                                },
                                SpecValue::List(xs) => {},
                                _ => {},
                            }
                        }
                    }
                    assert forall|i: int|
                        0 <= i < toks.drop_first().len() implies key_ok(
                        #[trigger] toks.drop_first()[i],
                    ) || is_index_token(toks.drop_first()[i]) by {
                        assert(toks.drop_first()[i] == toks[i + 1]);
                    }
                    lemma_update_preserves_wf(c, toks.drop_first(), nv);
                    let p = spec_set(c, toks.drop_first(), nv).unwrap();
                    lemma_replace_child_wf(v, t, p.0);
                },
                None => {},
            }
        }
    }
}

/// A found lookup names a position that holds it.
pub proof fn lemma_lookup_witness(es: Seq<(Seq<char>, SpecValue)>, k: Seq<char>)
    requires
        lookup_key(es, k) is Some,
    ensures
        exists|j: int| 0 <= j < es.len() && es[j].0 == k && lookup_key(es, k) == Some(es[j].1),
    decreases es.len(),
{
    if es.len() > 0 && es[0].0 != k {
        lemma_lookup_witness(es.drop_first(), k);
        let j = choose|j: int|
            0 <= j < es.drop_first().len() && es.drop_first()[j].0 == k && lookup_key(
                es.drop_first(),
                k,
            ) == Some(es.drop_first()[j].1);
        assert(es.drop_first()[j] == es[j + 1]);
        assert(es[j + 1].0 == k && lookup_key(es, k) == Some(es[j + 1].1));
    }
}

/// Every path that enumeration lists resolves through the navigator: reading
/// an enumerated path finds a node and meets no fault, provided the
/// document's keys are addressable and pairwise distinct.
pub proof fn lemma_enumerated_path_reads_back(v: SpecValue, p: Seq<char>)
    requires
        paths_wf(v),
        descend_paths(v).contains(p),
    ensures
        tokens_ok(spec_split(p, seq!['.'])),
        spec_nav(v, spec_split(p, seq!['.'])) is Some,
    decreases v,
{
    match v {
        SpecValue::Table(es) => {
            lemma_table_paths_member(es, p);
            let j = choose|j: int| 0 <= j < es.len() && #[trigger] entry_path(es[j], p);
            let k = es[j].0;
            assert(key_ok(k));
            if p == k {
                lemma_split_single(k);
                lemma_lookup_present(es, j);
                let toks = spec_split(p, seq!['.']);
                assert(toks == seq![k]);
                assert(toks.first() == k);
                assert(spec_step(v, k) == lookup_key(es, k));
                let c = lookup_key(es, k).unwrap();
                assert(toks.drop_first() =~= Seq::<Seq<char>>::empty());
                assert(spec_nav(c, toks.drop_first()) == Some(c));
                assert forall|i: int|
                    0 <= i < toks.len() && is_index_token(#[trigger] toks[i]) implies false by {
                    assert(toks[i] == k);
                }
            } else {
                let q = choose|q: Seq<char>|
                    descend_paths(es[j].1).contains(q) && p == k + seq!['.'] + q;
                lemma_split_prepend(k, q);
                let toks = spec_split(p, seq!['.']);
                assert(toks == seq![k] + spec_split(q, seq!['.']));
                assert forall|i: int| 0 <= i < j implies es[i].0 != k by {}
                crate::nav::lemma_lookup_at(es, k, j);
                assert(spec_step(v, k) == Some(es[j].1));
                lemma_enumerated_path_reads_back(es[j].1, q);
                assert(toks.first() == k);
                assert(toks.drop_first() =~= spec_split(q, seq!['.']));
                assert(spec_nav(v, toks) == spec_nav(es[j].1, spec_split(q, seq!['.'])));
                assert forall|i: int|
                    0 <= i < toks.len() && is_index_token(#[trigger] toks[i]) implies crate::token::index_val(
                    toks[i],
                ) <= usize::MAX as nat by {
                    if i > 0 {
                        assert(toks[i] == spec_split(q, seq!['.'])[i - 1]);
                    }
                }
            }
        },
        SpecValue::List(xs) => {
            lemma_list_paths_member(xs, p);
            let j = choose|j: int| 0 <= j < xs.len() && #[trigger] elem_path(xs[j], j, p);
            let k = dec_str(j as nat);
            lemma_dec_str_key_ok(j as nat);
            assert(spec_step(v, k) == Some(xs[j]));
            if p == k {
                lemma_split_single(k);
                let toks = spec_split(p, seq!['.']);
                assert(toks == seq![k]);
                assert(toks.first() == k);
                assert(toks.drop_first() =~= Seq::<Seq<char>>::empty());
                assert(spec_nav(xs[j], toks.drop_first()) == Some(xs[j]));
                assert forall|i: int|
                    0 <= i < toks.len() && is_index_token(#[trigger] toks[i]) implies false by {
                    assert(toks[i] == k);
                }
            } else {
                let q = choose|q: Seq<char>|
                    descend_paths(xs[j]).contains(q) && p == k + seq!['.'] + q;
                lemma_split_prepend(k, q);
                let toks = spec_split(p, seq!['.']);
                assert(toks == seq![k] + spec_split(q, seq!['.']));
                lemma_enumerated_path_reads_back(xs[j], q);
                assert(toks.first() == k);
                assert(toks.drop_first() =~= spec_split(q, seq!['.']));
                assert(spec_nav(v, toks) == spec_nav(xs[j], spec_split(q, seq!['.'])));
                assert forall|i: int|
                    0 <= i < toks.len() && is_index_token(#[trigger] toks[i]) implies crate::token::index_val(
                    toks[i],
                ) <= usize::MAX as nat by {
                    if i > 0 {
                        assert(toks[i] == spec_split(q, seq!['.'])[i - 1]);
                    }
                }
            }
        },
        _ => {
            assert(descend_paths(v) =~= Seq::<Seq<char>>::empty());
        },
    }
}

/// After replacing at key `k`, looking `k` up finds the new value.
pub proof fn lemma_lookup_set_entries(
    es: Seq<(Seq<char>, SpecValue)>,
    k: Seq<char>,
    nv: SpecValue,
)
    ensures
        lookup_key(set_entries(es, k, nv), k) == Some(nv),
    decreases es.len(),
{
    if es.len() == 0 {
        let one = set_entries(es, k, nv);
        assert(one[0] == (k, nv));
    } else if es[0].0 == k {
        let r = set_entries(es, k, nv);
        assert(r[0] == (es[0].0, nv));
    } else {
        lemma_lookup_set_entries(es.drop_first(), k, nv);
        let r = set_entries(es, k, nv);
        assert(r[0] == es[0]);
        assert(r.drop_first() =~= set_entries(es.drop_first(), k, nv));
    }
}

/// After replacing the child a token selects, stepping by that token reaches
/// the new child.
pub proof fn lemma_step_replace(v: SpecValue, t: Seq<char>, c: SpecValue)
    requires
        spec_step(v, t) is Some,
    ensures
        spec_step(replace_child(v, t, c), t) == Some(c),
{
    if is_index_token(t) {
        match v {
            SpecValue::List(xs) => {},
            _ => {},
        }
    } else {
        match v {
            SpecValue::Table(es) => {
                lemma_lookup_set_entries(es, t, c);
            },
            _ => {},
        }
    }
}

/// An update that does not fault returns exactly the value a read at the same
/// path would have returned before it: the displaced value when the slot was
/// occupied, absent when the slot was created or an ancestor was missing.
pub proof fn lemma_update_returns_prior_read(v: SpecValue, toks: Seq<Seq<char>>, nv: SpecValue)
    requires
        toks.len() >= 1,
        spec_set(v, toks, nv) is Some,
    ensures
        spec_set(v, toks, nv).unwrap().1 == spec_nav(v, toks),
    decreases toks.len(),
{
    let t = toks.first();
    if toks.len() == 1 {
        assert(toks.drop_first() =~= Seq::<Seq<char>>::empty());
        assert(spec_set(v, toks, nv).unwrap().1 == spec_step(v, t));
        match spec_step(v, t) {
            Some(c) => {
                assert(spec_nav(v, toks) == spec_nav(c, toks.drop_first()));
                assert(spec_nav(c, toks.drop_first()) == Some(c));
            },
            None => {
                assert(spec_nav(v, toks) is None);
            },
        }
    } else {
        match spec_step(v, t) {
            Some(c) => {
                lemma_update_returns_prior_read(c, toks.drop_first(), nv);
            },
            None => {},
        }
    }
}

/// Writing a value at a path whose parent exists, then reading the same path,
/// returns the written value.
pub proof fn lemma_update_then_read(v: SpecValue, toks: Seq<Seq<char>>, nv: SpecValue)
    requires
        toks.len() >= 1,
        spec_nav(v, toks.drop_last()) is Some,
        spec_set(v, toks, nv) is Some,
    ensures
        spec_nav(spec_set(v, toks, nv).unwrap().0, toks) == Some(nv),
    decreases toks.len(),
{
    let t = toks.first();
    if toks.len() == 1 {
        let v2 = spec_set(v, toks, nv).unwrap().0;
        assert(toks.drop_first() =~= Seq::<Seq<char>>::empty());
        if is_index_token(t) {
            match v {
                SpecValue::List(xs) => {
                    assert(spec_step(v2, t) == Some(nv));
                },
                _ => {},
            }
        } else {
            match v {
                SpecValue::Table(es) => {
                    lemma_lookup_set_entries(es, t, nv);
                    assert(spec_step(v2, t) == Some(nv));
                },
                _ => {},
            }
        }
        assert(spec_nav(v2, toks) == spec_nav(nv, toks.drop_first()));
    } else {
        let front = toks.drop_last();
        assert(front.first() == t);
        assert(front.len() >= 1);
        let c = spec_step(v, t).unwrap();
        assert(spec_step(v, t) is Some) by {
            assert(spec_nav(v, front) == match spec_step(v, front.first()) {
                Some(x) => spec_nav(x, front.drop_first()),
                None => None::<SpecValue>,
            });
        }
        let inner = spec_set(c, toks.drop_first(), nv);
        assert(inner is Some);
        let p = inner.unwrap();
        assert(spec_set(v, toks, nv).unwrap().0 == replace_child(v, t, p.0));
        assert(front.drop_first() =~= toks.drop_first().drop_last());
        assert(spec_nav(c, toks.drop_first().drop_last()) is Some);
        lemma_update_then_read(c, toks.drop_first(), nv);
        lemma_step_replace(v, t, p.0);
        let v2 = replace_child(v, t, p.0);
        assert(spec_nav(v2, toks) == spec_nav(p.0, toks.drop_first()));
    }
}

/// A path whose first token matches nothing at the root reads as absent; a
/// missing binding is never a fault.
pub proof fn lemma_absent_first_token(v: SpecValue, toks: Seq<Seq<char>>)
    requires
        toks.len() >= 1,
        spec_step(v, toks[0]) is None,
    ensures
        spec_nav(v, toks) is None,
{
    assert(toks.first() == toks[0]);
}

} // verus!
