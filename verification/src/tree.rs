//! Executable trees: shared, immutable node handles and the patches that
//! refer to them.

use crate::model::{Edit, Tree};
use std::rc::Rc;
use vstd::prelude::*;

verus! {

/// One vertex of a labeled, ordered tree. Nodes are built once by
/// [`Node::new`] and only read afterwards; subtrees are shared, never copied.
pub struct Node<T: Eq> {
    key: Option<String>,
    value: T,
    children: Vec<Rc<Node<T>>>,
}

/// One operation of a patch set, stored under the position it applies to.
pub enum Patch<T: Eq> {
    /// Replace the node at this position, and all below it, by the given subtree.
    Update(Rc<Node<T>>),
    /// Append the given subtrees after the existing children of the node at
    /// this position.
    Insert(Vec<Rc<Node<T>>>),
    /// Drop the node at this position together with its subtree.
    Remove,
}

/// The trees that a sequence of node handles stands for.
pub open spec fn forest<T: Eq>(nodes: Seq<Rc<Node<T>>>) -> Seq<Tree<T>> {
    nodes.map_values(|n: Rc<Node<T>>| n@)
}

/// What a stored key stands for: its characters.
pub open spec fn key_view(key: Option<String>) -> Option<Seq<char>> {
    match key {
        Some(s) => Some(s@),
        None => None,
    }
}

impl<T: Eq> Node<T> {
    /// The tree below this node, children taken in order.
    pub closed spec fn tree(self) -> Tree<T>
        decreases self,
    {
        Tree {
            value: self.value,
            key: key_view(self.key),
            children: Seq::new(
                self.children@.len(),
                |i: int|
                    if 0 <= i < self.children@.len() {
                        (*self.children@[i]).tree()
                    } else {
                        arbitrary()
                    },
            ),
        }
    }
}

impl<T: Eq> View for Node<T> {
    type V = Tree<T>;

    open spec fn view(&self) -> Tree<T> {
        self.tree()
    }
}

impl<T: Eq> View for Patch<T> {
    type V = Edit<T>;

    open spec fn view(&self) -> Edit<T> {
        match *self {
            Patch::Update(n) => Edit::Update(n@),
            Patch::Insert(ns) => Edit::Insert(forest(ns@)),
            Patch::Remove => Edit::Remove,
        }
    }
}

/// What a stored patch set stands for: the same positions, as integers, each
/// with the view of its patch.
pub open spec fn patch_set<T: Eq>(m: Map<u32, Patch<T>>) -> Map<int, Edit<T>> {
    Map::new(|k: int| 0 <= k <= u32::MAX && m.contains_key(k as u32), |k: int| m[k as u32]@)
}

impl<T: Eq> Node<T> {
    /// Builds a node from its value, its optional key and its already built
    /// children, and returns the shared handle to it.
    pub fn new(value: T, key: Option<String>, children: Vec<Rc<Node<T>>>) -> (node: Rc<Node<T>>)
        ensures
            node@ == (Tree { value, key: key_view(key), children: forest(children@) }),
    {
        let node = Rc::new(Node { key: key, value: value, children: children });
        proof {
            assert(node@.children =~= forest(children@));
        }
        node
    }

    /// The value this node carries.
    pub fn value(&self) -> (v: &T)
        ensures
            *v == self@.value,
    {
        &self.value
    }

    /// The key of this node, if it has one. No operation of this library
    /// consults it.
    pub fn key(&self) -> (k: &Option<String>)
        ensures
            key_view(*k) == self@.key,
    {
        &self.key
    }

    /// The children of this node, in order.
    pub fn children(&self) -> (cs: &Vec<Rc<Node<T>>>)
        ensures
            forest(cs@) == self@.children,
    {
        proof {
            assert(forest(self.children@) =~= self@.children);
        }
        &self.children
    }
}

/// A key for a node, from its text.
pub fn key(s: &str) -> (k: Option<String>)
    ensures
        key_view(k) == Some(s@),
{
    Some(s.to_owned())
}

} // verus!
