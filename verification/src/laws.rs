//! What holds of diffing and applying together: the listing that comes out
//! when the patches of a diff are applied to the tree they were computed
//! against, and the special cases of equal trees, unequal roots, appended
//! children and removed children.

use crate::diff::{
    diff_patches, lemma_paired_end_bounds, lemma_walk_end_bounds, paired_end, paired_patches,
    same_value, walk_end, walk_patches,
};
use crate::model::{count, count_from, listing, listing_from, Edit, Line, Tree};
use crate::patch::{apply_end, apply_lines, children_end, children_lines, projection};
use vstd::prelude::*;
use vstd::std_specs::cmp::PartialEqSpec;

verus! {

/// Every value of `T` compares equal to itself, as `Eq` promises.
pub open spec fn eq_reflexive<T: Eq>() -> bool {
    forall|x: T| #[trigger] x.eq_spec(&x)
}

/// The listing of `b` as it is seen from `a`, with the root at depth `d`:
/// where the values differ, all of `b`, marked; where they agree, the vertex
/// unmarked, then each child of `a` that has a partner in `b` seen from that
/// child, then what `b` has beyond the children of `a`, marked.
pub open spec fn merged<T: Eq>(a: Tree<T>, b: Tree<T>, d: nat) -> Seq<Line<T>>
    decreases a, 0nat,
{
    if same_value(a, b) {
        seq![Line { depth: d, value: a.value, changed: false }] + merged_from(
            a.children,
            b.children,
            d + 1,
            0,
        ) + added(a.children, b.children, d + 1)
    } else {
        listing(b, d, true)
    }
}

/// The listings of the children `ys[i..]` as they are seen from `xs[i..]`, at
/// depth `d`: each pair by itself, a child without a partner not at all.
pub open spec fn merged_from<T: Eq>(xs: Seq<Tree<T>>, ys: Seq<Tree<T>>, d: nat, i: int) -> Seq<
    Line<T>,
>
    decreases xs, xs.len() - i,
{
    if 0 <= i < xs.len() {
        if i < ys.len() {
            merged(xs[i], ys[i], d) + merged_from(xs, ys, d, i + 1)
        } else {
            merged_from(xs, ys, d, i + 1)
        }
    } else {
        Seq::empty()
    }
}

/// The marked listings, at depth `d`, of what `ys` has beyond the length of
/// `xs`.
pub open spec fn added<T>(xs: Seq<Tree<T>>, ys: Seq<Tree<T>>, d: nat) -> Seq<Line<T>> {
    if ys.len() > xs.len() {
        listing_from(ys.subrange(xs.len() as int, ys.len() as int), d, true, 0)
    } else {
        Seq::empty()
    }
}

/// `m` holds at the positions `lo..=hi` exactly what `w` holds there.
pub open spec fn agree<T>(m: Map<int, Edit<T>>, w: Map<int, Edit<T>>, lo: int, hi: int) -> bool {
    forall|k: int|
        #![trigger m.contains_key(k)]
        #![trigger w.contains_key(k)]
        lo <= k <= hi ==> (m.contains_key(k) <==> w.contains_key(k)) && (w.contains_key(k)
            ==> m[k] == w[k])
}

/// A walk records patches only at the positions it numbers: from its own to
/// the one at which it ends.
pub proof fn lemma_walk_positions<T: Eq>(a: Tree<T>, b: Tree<T>, p: int)
    ensures
        forall|k: int|
            #![trigger walk_patches(a, b, p).contains_key(k)]
            walk_patches(a, b, p).contains_key(k) ==> p <= k <= walk_end(a, b, p),
    decreases a, 0nat,
{
    if same_value(a, b) {
        let paired = paired_patches(a.children, b.children, p, 0);
        lemma_paired_positions(a.children, b.children, p, 0);
        lemma_paired_end_bounds(a.children, b.children, p, 0);
        assert forall|k: int| walk_patches(a, b, p).contains_key(k) implies p <= k <= walk_end(
            a,
            b,
            p,
        ) by {
            assert(k == p || paired.contains_key(k));
        }
    }
}

/// The pairs of children record patches only at positions behind the counter
/// they start from, up to the one at which they end.
pub proof fn lemma_paired_positions<T: Eq>(xs: Seq<Tree<T>>, ys: Seq<Tree<T>>, p: int, i: int)
    ensures
        forall|k: int|
            #![trigger paired_patches(xs, ys, p, i).contains_key(k)]
            paired_patches(xs, ys, p, i).contains_key(k) ==> p < k <= paired_end(xs, ys, p, i),
    decreases xs, xs.len() - i,
{
    let all = paired_patches(xs, ys, p, i);
    if 0 <= i < xs.len() {
        if i < ys.len() {
            let first = walk_patches(xs[i], ys[i], p + 1);
            let next = walk_end(xs[i], ys[i], p + 1);
            let rest = paired_patches(xs, ys, next, i + 1);
            lemma_walk_positions(xs[i], ys[i], p + 1);
            lemma_walk_end_bounds(xs[i], ys[i], p + 1);
            lemma_paired_positions(xs, ys, next, i + 1);
            lemma_paired_end_bounds(xs, ys, next, i + 1);
            assert forall|k: int| all.contains_key(k) implies p < k <= paired_end(xs, ys, p, i) by {
                assert(first.contains_key(k) || rest.contains_key(k));
            }
        } else {
            let rest = paired_patches(xs, ys, p + 1, i + 1);
            lemma_paired_positions(xs, ys, p + 1, i + 1);
            lemma_paired_end_bounds(xs, ys, p + 1, i + 1);
            assert forall|k: int| all.contains_key(k) implies p < k <= paired_end(xs, ys, p, i) by {
                assert(k == p + 1 || rest.contains_key(k));
            }
        }
    }
}

/// Non-interference. Let `a` stand at position `p` and depth `d`, and let the
/// patch set `m` hold, at the positions that the walk of `a` against `b`
/// numbers, the patches of that walk. Then applying `m` to `a` gives the
/// listing of `b` as seen from `a`, at depth `d`, and ends at the position at
/// which the walk ends, whatever `m` holds at other positions: the patches
/// of siblings change neither the lines, nor their depth, nor their marks.
pub proof fn lemma_apply_of_walk<T: Eq>(
    a: Tree<T>,
    b: Tree<T>,
    m: Map<int, Edit<T>>,
    p: int,
    d: nat,
)
    requires
        agree(m, walk_patches(a, b, p), p, walk_end(a, b, p)),
    ensures
        apply_lines(a, m, p, d) == merged(a, b, d),
        apply_end(a, m, p) == walk_end(a, b, p),
    decreases a, 0nat,
{
    let w = walk_patches(a, b, p);
    lemma_walk_end_bounds(a, b, p);
    if same_value(a, b) {
        let xs = a.children;
        let ys = b.children;
        let paired = paired_patches(xs, ys, p, 0);
        let own = seq![Line { depth: d, value: a.value, changed: false }];
        lemma_paired_positions(xs, ys, p, 0);
        assert(!paired.contains_key(p));
        assert(agree(m, paired, p + 1, paired_end(xs, ys, p, 0))) by {
            assert forall|k: int| p + 1 <= k <= paired_end(xs, ys, p, 0) implies (m.contains_key(k)
                <==> paired.contains_key(k)) && (paired.contains_key(k) ==> m[k] == paired[k]) by {
                assert(w.contains_key(k) <==> paired.contains_key(k));
            }
        }
        lemma_apply_of_paired(xs, ys, m, p, d + 1, 0);
        if ys.len() > xs.len() {
            assert(w.contains_key(p));
            assert(m[p] == Edit::Insert(ys.subrange(xs.len() as int, ys.len() as int)));
        } else {
            assert(!w.contains_key(p));
            assert(!m.contains_key(p));
            assert(own + children_lines(xs, m, p, d + 1, 0) =~= own + merged_from(xs, ys, d + 1, 0)
                + added(xs, ys, d + 1));
        }
    } else {
        assert(w.contains_key(p));
        assert(m[p] == Edit::Update(b));
    }
}

/// Non-interference among siblings: where the patch set holds the patches of
/// the pairs `xs[i..]`, `ys[i..]` at the positions they number, applying it
/// to `xs[i..]` gives each pair's own listing, one after the other.
pub proof fn lemma_apply_of_paired<T: Eq>(
    xs: Seq<Tree<T>>,
    ys: Seq<Tree<T>>,
    m: Map<int, Edit<T>>,
    p: int,
    d: nat,
    i: int,
)
    requires
        agree(m, paired_patches(xs, ys, p, i), p + 1, paired_end(xs, ys, p, i)),
    ensures
        children_lines(xs, m, p, d, i) == merged_from(xs, ys, d, i),
        children_end(xs, m, p, i) == paired_end(xs, ys, p, i),
    decreases xs, xs.len() - i,
{
    if 0 <= i < xs.len() {
        let all = paired_patches(xs, ys, p, i);
        let end = paired_end(xs, ys, p, i);
        lemma_paired_end_bounds(xs, ys, p, i);
        if i < ys.len() {
            let first = walk_patches(xs[i], ys[i], p + 1);
            let next = walk_end(xs[i], ys[i], p + 1);
            let rest = paired_patches(xs, ys, next, i + 1);
            lemma_walk_positions(xs[i], ys[i], p + 1);
            lemma_walk_end_bounds(xs[i], ys[i], p + 1);
            lemma_paired_positions(xs, ys, next, i + 1);
            assert(agree(m, first, p + 1, next)) by {
                assert forall|k: int| p + 1 <= k <= next implies (m.contains_key(k)
                    <==> first.contains_key(k)) && (first.contains_key(k) ==> m[k] == first[k]) by {
                    assert(!rest.contains_key(k));
                    assert(all.contains_key(k) <==> first.contains_key(k));
                }
            }
            lemma_apply_of_walk(xs[i], ys[i], m, p + 1, d);
            assert(agree(m, rest, next + 1, end)) by {
                assert forall|k: int| next + 1 <= k <= end implies (m.contains_key(k)
                    <==> rest.contains_key(k)) && (rest.contains_key(k) ==> m[k] == rest[k]) by {
                    assert(!first.contains_key(k));
                    assert(all.contains_key(k) <==> rest.contains_key(k));
                }
            }
            lemma_apply_of_paired(xs, ys, m, next, d, i + 1);
        } else {
            let rest = paired_patches(xs, ys, p + 1, i + 1);
            lemma_paired_positions(xs, ys, p + 1, i + 1);
            assert(!rest.contains_key(p + 1));
            assert(all.contains_key(p + 1));
            assert(m[p + 1] == Edit::<T>::Remove);
            assert(agree(m, rest, p + 2, end)) by {
                assert forall|k: int| p + 2 <= k <= end implies (m.contains_key(k)
                    <==> rest.contains_key(k)) && (rest.contains_key(k) ==> m[k] == rest[k]) by {
                    assert(all.contains_key(k) <==> rest.contains_key(k));
                }
            }
            lemma_apply_of_paired(xs, ys, m, p + 1, d, i + 1);
            assert(apply_lines(xs[i], m, p + 1, d) =~= Seq::<Line<T>>::empty());
            assert(children_lines(xs, m, p, d, i) =~= merged_from(xs, ys, d, i));
        }
    }
}

/// Applying the patches of `diff(a, b)` to `a` gives the listing of `b` as
/// seen from `a`: diff and apply agree on every position.
pub proof fn lemma_projection_of_diff<T: Eq>(a: Tree<T>, b: Tree<T>)
    ensures
        projection(a, diff_patches(a, b)) == merged(a, b, 0),
        apply_end(a, diff_patches(a, b), 0) == walk_end(a, b, 0),
{
    lemma_apply_of_walk(a, b, diff_patches(a, b), 0, 0);
}

/// `ys` and `xs` hold the same subtrees as far as both reach.
pub open spec fn same_start<T>(xs: Seq<Tree<T>>, ys: Seq<Tree<T>>) -> bool {
    forall|j: int| 0 <= j < xs.len() && j < ys.len() ==> #[trigger] ys[j] == xs[j]
}

/// The walk of a tree against itself records nothing and numbers every
/// vertex of it.
pub proof fn lemma_walk_same<T: Eq>(t: Tree<T>, p: int)
    requires
        eq_reflexive::<T>(),
    ensures
        walk_patches(t, t, p) == Map::<int, Edit<T>>::empty(),
        walk_end(t, t, p) == p + count(t) - 1,
    decreases t, 0nat,
{
    assert(same_value(t, t));
    lemma_paired_same(t.children, t.children, p, 0);
}

/// Children that are compared with themselves, and have a partner each, give
/// no patch, and all their vertices are numbered.
pub proof fn lemma_paired_same<T: Eq>(xs: Seq<Tree<T>>, ys: Seq<Tree<T>>, p: int, i: int)
    requires
        eq_reflexive::<T>(),
        0 <= i,
        xs.len() <= ys.len(),
        same_start(xs, ys),
    ensures
        paired_patches(xs, ys, p, i) == Map::<int, Edit<T>>::empty(),
        paired_end(xs, ys, p, i) == p + count_from(xs, i),
    decreases xs, xs.len() - i,
{
    if i < xs.len() {
        assert(ys[i] == xs[i]);
        lemma_walk_same(xs[i], p + 1);
        lemma_paired_same(xs, ys, p + count(xs[i]), i + 1);
        assert(paired_patches(xs, ys, p, i) =~= Map::<int, Edit<T>>::empty());
    }
}

/// A tree seen from itself is its plain listing, no line marked.
pub proof fn lemma_merged_same<T: Eq>(t: Tree<T>, d: nat)
    requires
        eq_reflexive::<T>(),
    ensures
        merged(t, t, d) == listing(t, d, false),
    decreases t, 0nat,
{
    assert(same_value(t, t));
    lemma_merged_same_start(t.children, t.children, d + 1, 0);
    assert(merged(t, t, d) =~= listing(t, d, false));
}

/// Children seen from the same children, as far as both lists reach, are
/// listed plainly: all of the shorter list.
pub proof fn lemma_merged_same_start<T: Eq>(xs: Seq<Tree<T>>, ys: Seq<Tree<T>>, d: nat, i: int)
    requires
        eq_reflexive::<T>(),
        0 <= i,
        same_start(xs, ys),
    ensures
        xs.len() <= ys.len() ==> merged_from(xs, ys, d, i) == listing_from(xs, d, false, i),
        ys.len() <= xs.len() ==> merged_from(xs, ys, d, i) == listing_from(ys, d, false, i),
    decreases xs, xs.len() - i,
{
    if i < xs.len() {
        lemma_merged_same_start(xs, ys, d, i + 1);
        if i < ys.len() {
            assert(ys[i] == xs[i]);
            lemma_merged_same(xs[i], d);
        }
    }
}

/// Children beyond the length of the other list are removed one by one, at
/// consecutive positions.
pub proof fn lemma_paired_removed<T: Eq>(xs: Seq<Tree<T>>, ys: Seq<Tree<T>>, p: int, i: int)
    requires
        ys.len() <= i <= xs.len(),
    ensures
        paired_patches(xs, ys, p, i) == Map::new(
            |k: int| p < k <= p + xs.len() - i,
            |k: int| Edit::<T>::Remove,
        ),
        paired_end(xs, ys, p, i) == p + xs.len() - i,
    decreases xs.len() - i,
{
    if i < xs.len() {
        lemma_paired_removed(xs, ys, p + 1, i + 1);
    }
    assert(paired_patches(xs, ys, p, i) =~= Map::new(
        |k: int| p < k <= p + xs.len() - i,
        |k: int| Edit::<T>::Remove,
    ));
}

/// Where `ys` is the start of `xs`, the pairs give no patch for what both
/// hold, and one removal for each child that `ys` lacks, at the positions
/// that follow the last vertex of what both hold.
pub proof fn lemma_paired_shortened<T: Eq>(xs: Seq<Tree<T>>, ys: Seq<Tree<T>>, p: int, i: int)
    requires
        eq_reflexive::<T>(),
        0 <= i <= ys.len() <= xs.len(),
        same_start(xs, ys),
    ensures
        paired_patches(xs, ys, p, i) == Map::new(
            |k: int| p + count_from(ys, i) < k <= p + count_from(ys, i) + xs.len() - ys.len(),
            |k: int| Edit::<T>::Remove,
        ),
        paired_end(xs, ys, p, i) == p + count_from(ys, i) + xs.len() - ys.len(),
    decreases ys.len() - i,
{
    if i < ys.len() {
        assert(ys[i] == xs[i]);
        lemma_walk_same(xs[i], p + 1);
        lemma_paired_shortened(xs, ys, p + count(xs[i]), i + 1);
        assert(paired_patches(xs, ys, p, i) =~= Map::new(
            |k: int| p + count_from(ys, i) < k <= p + count_from(ys, i) + xs.len() - ys.len(),
            |k: int| Edit::<T>::Remove,
        ));
    } else {
        lemma_paired_removed(xs, ys, p, i);
    }
}

/// Identity. The diff of a tree with itself is empty, and applying it lists
/// every vertex of the tree once, in pre-order, none of them marked.
pub proof fn lemma_identity<T: Eq>(t: Tree<T>)
    requires
        eq_reflexive::<T>(),
    ensures
        diff_patches(t, t) == Map::<int, Edit<T>>::empty(),
        projection(t, diff_patches(t, t)) == listing(t, 0, false),
{
    lemma_walk_same(t, 0);
    lemma_projection_of_diff(t, t);
    lemma_merged_same(t, 0);
}

/// Root replacement. Where the values of the roots differ, the diff is the
/// one replacement of the root by `b`, and applying it lists `b`, every line
/// marked: where `b` is a single vertex, its one line alone.
pub proof fn lemma_root_replacement<T: Eq>(a: Tree<T>, b: Tree<T>)
    requires
        !same_value(a, b),
    ensures
        diff_patches(a, b) == map![0int => Edit::Update(b)],
        projection(a, diff_patches(a, b)) == listing(b, 0, true),
        b.children.len() == 0 ==> projection(a, diff_patches(a, b)) == seq![
            Line { depth: 0, value: b.value, changed: true },
        ],
{
    assert(diff_patches(a, b).contains_key(0));
    if b.children.len() == 0 {
        assert(listing(b, 0, true) =~= seq![Line { depth: 0, value: b.value, changed: true }]);
    }
}

/// Pure append. Where the roots agree and `b` has the children of `a` and
/// more behind them, the diff is the one insertion of those at the root's
/// position, and applying it lists `a` unmarked and then, one level below
/// the root, what was appended, marked.
pub proof fn lemma_pure_append<T: Eq>(a: Tree<T>, b: Tree<T>)
    requires
        eq_reflexive::<T>(),
        same_value(a, b),
        a.children.len() < b.children.len(),
        same_start(a.children, b.children),
    ensures
        diff_patches(a, b) == map![
            0int => Edit::Insert(
                b.children.subrange(a.children.len() as int, b.children.len() as int),
            ),
        ],
        projection(a, diff_patches(a, b)) == listing(a, 0, false) + listing_from(
            b.children.subrange(a.children.len() as int, b.children.len() as int),
            1,
            true,
            0,
        ),
{
    lemma_paired_same(a.children, b.children, 0, 0);
    assert(diff_patches(a, b) =~= map![
        0int => Edit::Insert(
            b.children.subrange(a.children.len() as int, b.children.len() as int),
        ),
    ]);
    lemma_projection_of_diff(a, b);
    lemma_merged_same_start(a.children, b.children, 1, 0);
}

/// Pure removal. Where the roots agree and `b` has only the first children
/// of `a`, the diff is one removal for each child that `b` lacks, at the
/// positions that follow the last vertex of the children that stay, and
/// applying it lists the root and the children that stay, unmarked.
pub proof fn lemma_pure_removal<T: Eq>(a: Tree<T>, b: Tree<T>)
    requires
        eq_reflexive::<T>(),
        same_value(a, b),
        b.children.len() < a.children.len(),
        same_start(a.children, b.children),
    ensures
        diff_patches(a, b) == Map::new(
            |k: int|
                count_from(b.children, 0) < k <= count_from(b.children, 0) + a.children.len()
                    - b.children.len(),
            |k: int| Edit::<T>::Remove,
        ),
        projection(a, diff_patches(a, b)) == seq![
            Line { depth: 0, value: a.value, changed: false },
        ] + listing_from(b.children, 1, false, 0),
{
    lemma_paired_shortened(a.children, b.children, 0, 0);
    lemma_projection_of_diff(a, b);
    lemma_merged_same_start(a.children, b.children, 1, 0);
    assert(merged(a, b, 0) =~= seq![Line { depth: 0, value: a.value, changed: false }]
        + listing_from(b.children, 1, false, 0));
}

} // verus!
