//! The diff engine: two trees are walked in lockstep, in pre-order, and every
//! difference is recorded under the position of the node it concerns.

use crate::model::{count, count_from, Edit, Tree};
use crate::tree::{forest, patch_set, Node, Patch};
use std::collections::HashMap;
use std::rc::Rc;
use vstd::prelude::*;
use vstd::std_specs::cmp::PartialEqSpec;

verus! {

/// Shallow equality of two vertices: their values compare equal. Keys and
/// children take no part in it.
pub open spec fn same_value<T: Eq>(a: Tree<T>, b: Tree<T>) -> bool {
    a.value.eq_spec(&b.value)
}

/// The position counter after `a`, which stands at position `p`, has been
/// compared with `b`: the position of the last vertex of `a` that the walk
/// has numbered.
pub open spec fn walk_end<T: Eq>(a: Tree<T>, b: Tree<T>, p: int) -> int
    decreases a, 0nat,
{
    if same_value(a, b) {
        paired_end(a.children, b.children, p, 0)
    } else {
        p
    }
}

/// The position counter after the children `xs[i..]` have been compared with
/// `ys[i..]`, when it stood at `p` before.
pub open spec fn paired_end<T: Eq>(xs: Seq<Tree<T>>, ys: Seq<Tree<T>>, p: int, i: int) -> int
    decreases xs, xs.len() - i,
{
    if 0 <= i < xs.len() {
        if i < ys.len() {
            paired_end(xs, ys, walk_end(xs[i], ys[i], p + 1), i + 1)
        } else {
            paired_end(xs, ys, p + 1, i + 1)
        }
    } else {
        p
    }
}

/// The patches that turn `a`, which stands at position `p`, into `b`.
pub open spec fn walk_patches<T: Eq>(a: Tree<T>, b: Tree<T>, p: int) -> Map<int, Edit<T>>
    decreases a, 0nat,
{
    if same_value(a, b) {
        children_patches(a.children, b.children, p)
    } else {
        map![p => Edit::Update(b)]
    }
}

/// The patches for the children `xs` of the vertex at position `p`, compared
/// by index with `ys`: those of the pairs, and one insertion at `p` for what
/// `ys` has beyond the length of `xs`.
pub open spec fn children_patches<T: Eq>(xs: Seq<Tree<T>>, ys: Seq<Tree<T>>, p: int) -> Map<
    int,
    Edit<T>,
>
    decreases xs, xs.len() + 1,
{
    let paired = paired_patches(xs, ys, p, 0);
    if ys.len() > xs.len() {
        paired.insert(p, Edit::Insert(ys.subrange(xs.len() as int, ys.len() as int)))
    } else {
        paired
    }
}

/// The patches for the children `xs[i..]` compared by index with `ys[i..]`,
/// when the counter stands at `p`: a child without a partner is removed, a
/// child with one is walked.
pub open spec fn paired_patches<T: Eq>(xs: Seq<Tree<T>>, ys: Seq<Tree<T>>, p: int, i: int) -> Map<
    int,
    Edit<T>,
>
    decreases xs, xs.len() - i,
{
    if 0 <= i < xs.len() {
        if i < ys.len() {
            walk_patches(xs[i], ys[i], p + 1).union_prefer_right(
                paired_patches(xs, ys, walk_end(xs[i], ys[i], p + 1), i + 1),
            )
        } else {
            map![p + 1 => Edit::Remove].union_prefer_right(paired_patches(xs, ys, p + 1, i + 1))
        }
    } else {
        Map::empty()
    }
}

/// The patch set of `diff(a, b)`: the walk from the roots, counted from 0.
pub open spec fn diff_patches<T: Eq>(a: Tree<T>, b: Tree<T>) -> Map<int, Edit<T>> {
    walk_patches(a, b, 0)
}

/// The greatest position that a walk of `a`, which stands at position `p`,
/// against `b` can reach. Where equality on `T` is specified, the walk is
/// known and this is where it ends; where it is not, the walk may number
/// any vertex of `a`, and this is the position of the last of them.
pub open spec fn walk_limit<T: Eq>(a: Tree<T>, b: Tree<T>, p: int) -> int {
    if T::obeys_eq_spec() {
        walk_end(a, b, p)
    } else {
        p + count(a) - 1
    }
}

/// The greatest position that the comparison of the children `xs[i..]` with
/// `ys[i..]` can reach, when the counter stands at `p`.
pub open spec fn paired_limit<T: Eq>(xs: Seq<Tree<T>>, ys: Seq<Tree<T>>, p: int, i: int) -> int {
    if T::obeys_eq_spec() {
        paired_end(xs, ys, p, i)
    } else {
        p + count_from(xs, i)
    }
}

/// The counter never goes back, and a walk numbers no more than the vertices
/// of the first tree.
pub proof fn lemma_walk_end_bounds<T: Eq>(a: Tree<T>, b: Tree<T>, p: int)
    ensures
        p <= walk_end(a, b, p) <= p + count(a) - 1,
    decreases a, 0nat,
{
    if same_value(a, b) {
        lemma_paired_end_bounds(a.children, b.children, p, 0);
    }
}

/// The counter never goes back while children are compared: it passes each
/// child that is left, and the end of the walk of the first of them, and
/// numbers no more than their vertices.
pub proof fn lemma_paired_end_bounds<T: Eq>(xs: Seq<Tree<T>>, ys: Seq<Tree<T>>, p: int, i: int)
    ensures
        p <= paired_end(xs, ys, p, i) <= p + count_from(xs, i),
        0 <= i < xs.len() ==> p + 1 <= paired_end(xs, ys, p, i),
        0 <= i < xs.len() && i < ys.len() ==> walk_end(xs[i], ys[i], p + 1) <= paired_end(
            xs,
            ys,
            p,
            i,
        ),
    decreases xs, xs.len() - i,
{
    if 0 <= i < xs.len() {
        if i < ys.len() {
            lemma_walk_end_bounds(xs[i], ys[i], p + 1);
            lemma_paired_end_bounds(xs, ys, walk_end(xs[i], ys[i], p + 1), i + 1);
        } else {
            lemma_paired_end_bounds(xs, ys, p + 1, i + 1);
            assert(count(xs[i]) >= 1);
        }
    }
}

/// Computes the patch set that turns the tree under `a` into the tree under
/// `b`. Vertices are paired by position alone; keys are not consulted.
pub fn diff<T: Eq>(a: &Rc<Node<T>>, b: &Rc<Node<T>>) -> (result: HashMap<u32, Patch<T>>)
    requires
        walk_limit(a@, b@, 0) <= u32::MAX,
    ensures
        T::obeys_eq_spec() ==> patch_set(result@) == diff_patches(a@, b@),
{
    let mut result = HashMap::new();
    let mut index: u32 = 0;
    proof {
        assert(patch_set(result@) =~= Map::<int, Edit<T>>::empty());
    }
    walk(a, b, &mut result, &mut index);
    proof {
        if T::obeys_eq_spec() {
            assert(patch_set(result@) =~= diff_patches(a@, b@));
        }
    }
    result
}

/// Compares `a`, which stands at position `*index`, with `b`: where the
/// values differ, `b` replaces `a` and nothing below is looked at; where
/// they agree, the children are compared.
fn walk<T: Eq>(
    a: &Rc<Node<T>>,
    b: &Rc<Node<T>>,
    result: &mut HashMap<u32, Patch<T>>,
    index: &mut u32,
)
    requires
        walk_limit(a@, b@, *old(index) as int) <= u32::MAX,
    ensures
        *old(index) <= *final(index) <= walk_limit(a@, b@, *old(index) as int),
        T::obeys_eq_spec() ==> {
            &&& *final(index) == walk_end(a@, b@, *old(index) as int)
            &&& patch_set(final(result)@) == patch_set(old(result)@).union_prefer_right(
                walk_patches(a@, b@, *old(index) as int),
            )
        },
    decreases a@, 0nat,
{
    proof {
        lemma_walk_end_bounds(a@, b@, *index as int);
    }
    if *a.value() == *b.value() {
        diff_children(a.children(), b.children(), result, index);
    } else {
        let patch = Patch::Update(share(b));
        result.insert(*index, patch);
        proof {
            if T::obeys_eq_spec() {
                assert(patch_set(final(result)@) =~= patch_set(old(result)@).union_prefer_right(
                    walk_patches(a@, b@, *old(index) as int),
                ));
            }
        }
    }
}

/// Compares the children of a vertex at position `*index` by index: a child
/// of the first list without a partner is removed, a child with one is
/// walked, and what the second list has beyond the first is inserted at the
/// parent's position.
fn diff_children<T: Eq>(
    a_children: &Vec<Rc<Node<T>>>,
    b_children: &Vec<Rc<Node<T>>>,
    result: &mut HashMap<u32, Patch<T>>,
    index: &mut u32,
)
    requires
        paired_limit(forest(a_children@), forest(b_children@), *old(index) as int, 0) <= u32::MAX,
    ensures
        *old(index) <= *final(index) <= paired_limit(
            forest(a_children@),
            forest(b_children@),
            *old(index) as int,
            0,
        ),
        T::obeys_eq_spec() ==> {
            &&& *final(index) == paired_end(
                forest(a_children@),
                forest(b_children@),
                *old(index) as int,
                0,
            )
            &&& patch_set(final(result)@) == patch_set(old(result)@).union_prefer_right(
                children_patches(forest(a_children@), forest(b_children@), *old(index) as int),
            )
        },
    decreases forest(a_children@), a_children@.len() + 1,
{
    let parent_index = *index;
    let a_len = a_children.len();
    let b_len = b_children.len();
    let ghost xs = forest(a_children@);
    let ghost ys = forest(b_children@);
    let ghost before = patch_set(result@);
    let mut i: usize = 0;
    while i < a_len
        invariant
            xs == forest(a_children@),
            ys == forest(b_children@),
            a_len == a_children@.len(),
            b_len == b_children@.len(),
            i <= a_len,
            parent_index <= *index,
            paired_limit(xs, ys, *index as int, i as int) <= paired_limit(
                xs,
                ys,
                parent_index as int,
                0,
            ) <= u32::MAX,
            T::obeys_eq_spec() ==> {
                &&& paired_end(xs, ys, *index as int, i as int) == paired_end(
                    xs,
                    ys,
                    parent_index as int,
                    0,
                )
                &&& patch_set(result@).union_prefer_right(
                    paired_patches(xs, ys, *index as int, i as int),
                ) == before.union_prefer_right(paired_patches(xs, ys, parent_index as int, 0))
            },
        decreases a_len - i,
    {
        proof {
            lemma_paired_end_bounds(xs, ys, *index as int, i as int);
            lemma_walk_end_bounds(xs[i as int], ys[i as int], *index + 1);
        }
        let ghost held = patch_set(result@);
        let ghost at = *index as int;
        *index = *index + 1;
        if i >= b_len {
            let patch = Patch::Remove;
            result.insert(*index, patch);
            proof {
                assert(patch_set(result@) =~= held.insert(at + 1, Edit::Remove));
                if T::obeys_eq_spec() {
                    assert(patch_set(result@).union_prefer_right(
                        paired_patches(xs, ys, at + 1, i + 1),
                    ) =~= held.union_prefer_right(paired_patches(xs, ys, at, i as int)));
                }
            }
        } else {
            walk(&a_children[i], &b_children[i], result, index);
            proof {
                if T::obeys_eq_spec() {
                    assert(patch_set(result@).union_prefer_right(
                        paired_patches(xs, ys, *index as int, i + 1),
                    ) =~= held.union_prefer_right(paired_patches(xs, ys, at, i as int)));
                }
            }
        }
        i = i + 1;
    }
    let ghost paired = paired_patches(xs, ys, parent_index as int, 0);
    proof {
        if T::obeys_eq_spec() {
            assert(patch_set(result@) =~= before.union_prefer_right(paired));
        }
    }
    if b_len > a_len {
        let mut inserts: Vec<Rc<Node<T>>> = Vec::new();
        let mut j: usize = a_len;
        while j < b_len
            invariant
                a_len <= j <= b_len,
                b_len == b_children@.len(),
                inserts@ == b_children@.subrange(a_len as int, j as int),
            decreases b_len - j,
        {
            inserts.push(share(&b_children[j]));
            proof {
                assert(inserts@ =~= b_children@.subrange(a_len as int, j + 1));
            }
            j = j + 1;
        }
        let ghost held = patch_set(result@);
        let patch = Patch::Insert(inserts);
        result.insert(parent_index, patch);
        proof {
            assert(forest(inserts@) =~= ys.subrange(a_len as int, b_len as int));
            assert(patch_set(result@) =~= held.insert(
                parent_index as int,
                Edit::Insert(ys.subrange(a_len as int, b_len as int)),
            ));
        }
    }
    proof {
        if T::obeys_eq_spec() {
            assert(patch_set(result@) =~= before.union_prefer_right(
                children_patches(xs, ys, parent_index as int),
            ));
        }
    }
}

/// Whether the positions that `diff(a, b)` numbers fit in `u32`: the walk is
/// made without recording anything, and given up as soon as the counter
/// could go no further.
pub fn diff_fits<T: Eq>(a: &Rc<Node<T>>, b: &Rc<Node<T>>) -> (fits: bool)
    ensures
        T::obeys_eq_spec() ==> fits == (walk_limit(a@, b@, 0) <= u32::MAX),
{
    count_walk(a, b, 0).is_some()
}

/// The position at which the walk of `a`, at position `index`, against `b`
/// ends, or `None` where it does not fit in `u32`.
fn count_walk<T: Eq>(a: &Rc<Node<T>>, b: &Rc<Node<T>>, index: u32) -> (end: Option<u32>)
    ensures
        T::obeys_eq_spec() ==> match end {
            Some(e) => e == walk_end(a@, b@, index as int),
            None => walk_end(a@, b@, index as int) > u32::MAX,
        },
    decreases a@, 0nat,
{
    if *a.value() == *b.value() {
        count_children(a.children(), b.children(), index)
    } else {
        Some(index)
    }
}

/// The position at which the comparison of `a_children` with `b_children`
/// ends, when their parent stands at `index`, or `None` where it does not
/// fit in `u32`.
fn count_children<T: Eq>(
    a_children: &Vec<Rc<Node<T>>>,
    b_children: &Vec<Rc<Node<T>>>,
    index: u32,
) -> (end: Option<u32>)
    ensures
        T::obeys_eq_spec() ==> match end {
            Some(e) => e == paired_end(
                forest(a_children@),
                forest(b_children@),
                index as int,
                0,
            ),
            None => paired_end(forest(a_children@), forest(b_children@), index as int, 0)
                > u32::MAX,
        },
    decreases forest(a_children@), a_children@.len() + 1,
{
    let a_len = a_children.len();
    let b_len = b_children.len();
    let ghost xs = forest(a_children@);
    let ghost ys = forest(b_children@);
    let mut at = index;
    let mut i: usize = 0;
    while i < a_len
        invariant
            xs == forest(a_children@),
            ys == forest(b_children@),
            a_len == a_children@.len(),
            b_len == b_children@.len(),
            i <= a_len,
            T::obeys_eq_spec() ==> paired_end(xs, ys, at as int, i as int) == paired_end(
                xs,
                ys,
                index as int,
                0,
            ),
        decreases a_len - i,
    {
        proof {
            lemma_paired_end_bounds(xs, ys, at as int, i as int);
        }
        if at == u32::MAX {
            return None;
        }
        at = at + 1;
        if i < b_len {
            match count_walk(&a_children[i], &b_children[i], at) {
                Some(next) => {
                    at = next;
                },
                None => {
                    return None;
                },
            }
        }
        i = i + 1;
    }
    Some(at)
}

/// Another handle to the node behind `node`: `Rc::clone`, which copies the
/// pointer and leaves the node where it is, so the result stands for the
/// same value.
#[verifier::external_body]
fn share<T: Eq>(node: &Rc<Node<T>>) -> (handle: Rc<Node<T>>)
    ensures
        handle == *node,
{
    Rc::clone(node)
}

} // verus!
