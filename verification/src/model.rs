//! The mathematical model: trees, patches and listing lines as plain values.

use vstd::prelude::*;

verus! {

/// A labeled, ordered tree: what a node handle stands for.
pub struct Tree<T> {
    pub value: T,
    pub key: Option<Seq<char>>,
    pub children: Seq<Tree<T>>,
}

/// One operation of a patch set: what a patch stands for.
pub enum Edit<T> {
    /// The vertex at this position, and all below it, is replaced by this tree.
    Update(Tree<T>),
    /// These trees are appended behind the children of the vertex at this
    /// position.
    Insert(Seq<Tree<T>>),
    /// The vertex at this position is dropped with all below it.
    Remove,
}

/// One line of a listing: a value, how deep it stands below the root of the
/// listing, and whether it is marked as changed.
pub struct Line<T> {
    pub depth: nat,
    pub value: T,
    pub changed: bool,
}

/// Number of vertices of `t`.
pub open spec fn count<T>(t: Tree<T>) -> nat
    decreases t, 0nat,
{
    1 + count_from(t.children, 0)
}

/// Number of vertices in the subtrees `xs[i..]`.
pub open spec fn count_from<T>(xs: Seq<Tree<T>>, i: int) -> nat
    decreases xs, xs.len() - i,
{
    if 0 <= i < xs.len() {
        count(xs[i]) + count_from(xs, i + 1)
    } else {
        0
    }
}

/// The pre-order listing of `t` with its root at depth `d`, every line
/// carrying the same mark.
pub open spec fn listing<T>(t: Tree<T>, d: nat, changed: bool) -> Seq<Line<T>>
    decreases t, 0nat,
{
    seq![Line { depth: d, value: t.value, changed }] + listing_from(t.children, d + 1, changed, 0)
}

/// The listings of the subtrees `xs[i..]`, one after the other, each with its
/// root at depth `d`.
pub open spec fn listing_from<T>(xs: Seq<Tree<T>>, d: nat, changed: bool, i: int) -> Seq<Line<T>>
    decreases xs, xs.len() - i,
{
    if 0 <= i < xs.len() {
        listing(xs[i], d, changed) + listing_from(xs, d, changed, i + 1)
    } else {
        Seq::empty()
    }
}

} // verus!
