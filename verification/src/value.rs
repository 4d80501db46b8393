//! The tree value type, its mathematical model, and the error type shared by
//! the reading and updating operations.

use vstd::prelude::*;

verus! {

/// A node of a document tree.
///
/// A `Table` keeps its entries in insertion order; well-formed tables have
/// pairwise distinct keys (see [`wf`]). A `List` is an ordered run of child
/// nodes. The remaining variants are scalars and have no children.
#[derive(Debug, PartialEq)]
pub enum TreeValue {
    Table(Vec<(String, TreeValue)>),
    List(Vec<TreeValue>),
    Text(String),
    Int(i64),
    Bool(bool),
    Null,
}

/// The mathematical model of a [`TreeValue`]: keys are character sequences,
/// entry lists and child lists are sequences.
pub enum SpecValue {
    Table(Seq<(Seq<char>, SpecValue)>),
    List(Seq<SpecValue>),
    Text(Seq<char>),
    Int(i64),
    Bool(bool),
    Null,
}

/// Model of a table's entry vector: each key by its characters, each child by
/// its model.
pub open spec fn view_entries(es: Seq<(String, TreeValue)>) -> Seq<(Seq<char>, SpecValue)>
    decreases es,
{
    if es.len() == 0 {
        Seq::empty()
    } else {
        seq![(es[0].0@, es[0].1@)] + view_entries(es.drop_first())
    }
}

/// Model of a list's child vector.
pub open spec fn view_children(xs: Seq<TreeValue>) -> Seq<SpecValue>
    decreases xs,
{
    if xs.len() == 0 {
        Seq::empty()
    } else {
        seq![xs[0]@] + view_children(xs.drop_first())
    }
}

impl View for TreeValue {
    type V = SpecValue;

    open spec fn view(&self) -> SpecValue
        decreases self,
    {
        match self {
            TreeValue::Table(es) => SpecValue::Table(view_entries(es@)),
            TreeValue::List(xs) => SpecValue::List(view_children(xs@)),
            TreeValue::Text(s) => SpecValue::Text(s@),
            TreeValue::Int(n) => SpecValue::Int(*n),
            TreeValue::Bool(b) => SpecValue::Bool(*b),
            TreeValue::Null => SpecValue::Null,
        }
    }
}

/// `view_entries` maps each position of the entry vector pointwise.
pub proof fn lemma_view_entries(es: Seq<(String, TreeValue)>)
    ensures
        view_entries(es).len() == es.len(),
        forall|i: int|
            0 <= i < es.len() ==> #[trigger] view_entries(es)[i] == (es[i].0@, es[i].1@),
    decreases es,
{
    if es.len() > 0 {
        lemma_view_entries(es.drop_first());
        assert forall|i: int| 0 <= i < es.len() implies #[trigger] view_entries(es)[i] == (
        es[i].0@,
        es[i].1@,
        ) by {
            let first = seq![(es[0].0@, es[0].1@)];
            assert(view_entries(es) == first + view_entries(es.drop_first()));
            if i > 0 {
                assert((first + view_entries(es.drop_first()))[i] == view_entries(
                    es.drop_first(),
                )[i - 1]);
                assert(es.drop_first()[i - 1] == es[i]);
            }
        }
    }
}

/// `view_children` maps each position of the child vector pointwise.
pub proof fn lemma_view_children(xs: Seq<TreeValue>)
    ensures
        view_children(xs).len() == xs.len(),
        forall|i: int| 0 <= i < xs.len() ==> #[trigger] view_children(xs)[i] == xs[i]@,
    decreases xs,
{
    if xs.len() > 0 {
        lemma_view_children(xs.drop_first());
        assert(view_children(xs) == seq![xs[0]@] + view_children(xs.drop_first()));
        assert forall|i: int| 0 <= i < xs.len() implies #[trigger] view_children(xs)[i]
            == xs[i]@ by {
            let first = seq![xs[0]@];
            assert(view_children(xs) == first + view_children(xs.drop_first()));
            if i > 0 {
                assert((first + view_children(xs.drop_first()))[i] == view_children(
                    xs.drop_first(),
                )[i - 1]);
                assert(xs.drop_first()[i - 1] == xs[i]);
            }
        }
    }
}

/// The fault taxonomy of reading and updating.
///
/// A missing key or position is never a fault: it is surfaced as an absent
/// result. `ShapeMismatch` reports a final update token whose kind does not
/// agree with the parent node: an index token against a table, a key token or
/// an out-of-range index token against a list, or any token against a scalar.
/// `MalformedIndexToken` reports an index token whose digits overflow `usize`.
#[derive(Debug, Clone, Copy, PartialEq, Eq, Structural)]
pub enum PathError {
    ShapeMismatch,
    MalformedIndexToken,
}

} // verus!
