use std::collections::HashMap;
use std::rc::Rc;
use tree_diff::{diff, key, patch, Node, Patch};

fn leaf(value: &'static str) -> Rc<Node<&'static str>> {
    Node::new(value, None, vec![])
}

fn positions(patches: &HashMap<u32, Patch<&'static str>>) -> Vec<u32> {
    let mut found: Vec<u32> = patches.keys().copied().collect();
    found.sort();
    found
}

fn sample() -> Rc<Node<&'static str>> {
    Node::new("a", key("top"), vec![
        Node::new("b", None, vec![leaf("c"), leaf("d")]),
        leaf("e"),
        Node::new("f", None, vec![Node::new("g", None, vec![leaf("h")])]),
    ])
}

#[test]
fn new_keeps_value_key_and_children() {
    let child = leaf("child");
    let node = Node::new("parent", key("k"), vec![child.clone(), leaf("other")]);
    assert_eq!(*node.value(), "parent");
    assert_eq!(*node.key(), Some(String::from("k")));
    assert_eq!(node.children().len(), 2);
    assert!(Rc::ptr_eq(&node.children()[0], &child));
    assert_eq!(*node.children()[1].value(), "other");
    assert_eq!(*node.children()[1].key(), None);
}

#[test]
fn key_wraps_the_text() {
    assert_eq!(key("child1"), Some(String::from("child1")));
    assert_eq!(key(""), Some(String::new()));
}

#[test]
fn identity_gives_no_patch() {
    let tree = sample();
    assert!(diff(&tree, &tree).is_empty());
    assert!(diff(&tree, &sample()).is_empty());
}

#[test]
fn identity_renders_the_plain_listing() {
    let tree = sample();
    let lines = patch(&tree, &diff(&tree, &tree));
    assert_eq!(
        lines,
        vec!["a", "  b", "    c", "    d", "  e", "  f", "    g", "      h"]
    );
}

#[test]
fn no_patches_render_the_plain_listing() {
    let tree = sample();
    let none: HashMap<u32, Patch<&'static str>> = HashMap::new();
    assert_eq!(
        patch(&tree, &none),
        vec!["a", "  b", "    c", "    d", "  e", "  f", "    g", "      h"]
    );
}

#[test]
fn root_replacement_of_single_nodes() {
    let t1 = leaf("old");
    let t2 = leaf("new");
    let patches = diff(&t1, &t2);
    assert_eq!(patches.len(), 1);
    match patches.get(&0) {
        Some(Patch::Update(node)) => assert!(Rc::ptr_eq(node, &t2)),
        _ => panic!("position 0 holds no replacement"),
    }
    assert_eq!(patch(&t1, &patches), vec!["new(*)"]);
}

#[test]
fn replaced_root_hides_deeper_differences() {
    let t1 = Node::new("old", None, vec![leaf("x"), leaf("y")]);
    let t2 = Node::new("new", None, vec![Node::new("x", None, vec![leaf("z")])]);
    let patches = diff(&t1, &t2);
    assert_eq!(positions(&patches), vec![0]);
    assert!(matches!(patches.get(&0), Some(Patch::Update(_))));
    assert_eq!(patch(&t1, &patches), vec!["new(*)", "  x(*)", "    z(*)"]);
}

#[test]
fn pure_append() {
    let c1 = Node::new("c1", None, vec![leaf("c1-1")]);
    let c2 = Node::new("c2", None, vec![leaf("c2-1")]);
    let t1 = Node::new("root", None, vec![c1.clone()]);
    let t2 = Node::new("root", None, vec![c1.clone(), c2.clone()]);
    let patches = diff(&t1, &t2);
    assert_eq!(positions(&patches), vec![0]);
    match patches.get(&0) {
        Some(Patch::Insert(nodes)) => {
            assert_eq!(nodes.len(), 1);
            assert!(Rc::ptr_eq(&nodes[0], &c2));
        },
        _ => panic!("position 0 holds no insertion"),
    }
    assert_eq!(
        patch(&t1, &patches),
        vec!["root", "  c1", "    c1-1", "  c2(*)", "    c2-1(*)"]
    );
}

#[test]
fn pure_removal() {
    let c1 = Node::new("c1", None, vec![leaf("c1-1"), leaf("c1-2")]);
    let c2 = Node::new("c2", None, vec![leaf("c2-1")]);
    let t1 = Node::new("root", None, vec![c1.clone(), c2]);
    let t2 = Node::new("root", None, vec![c1]);
    let patches = diff(&t1, &t2);
    // c1 and its two children stand at 1, 2 and 3, so c2 stands at 4
    assert_eq!(positions(&patches), vec![4]);
    assert!(matches!(patches.get(&4), Some(Patch::Remove)));
    assert_eq!(patch(&t1, &patches), vec!["root", "  c1", "    c1-1", "    c1-2"]);
}

#[test]
fn several_removals_stand_at_consecutive_positions() {
    let t1 = Node::new("root", None, vec![
        leaf("keep"),
        Node::new("gone1", None, vec![leaf("below1"), leaf("below2")]),
        Node::new("gone2", None, vec![leaf("below3")]),
        leaf("gone3"),
    ]);
    let t2 = Node::new("root", None, vec![leaf("keep")]);
    let patches = diff(&t1, &t2);
    assert_eq!(positions(&patches), vec![2, 3, 4]);
    assert!(patches.values().all(|p| matches!(p, Patch::Remove)));
    assert_eq!(patch(&t1, &patches), vec!["root", "  keep"]);
}

#[test]
fn keys_are_not_consulted() {
    let t1 = Node::new("root", key("one"), vec![Node::new("x", key("a"), vec![])]);
    let t2 = Node::new("root", key("two"), vec![Node::new("x", None, vec![])]);
    assert!(diff(&t1, &t2).is_empty());
    // the same keys do not pair vertices whose values differ
    let t3 = Node::new("root", key("one"), vec![Node::new("y", key("a"), vec![])]);
    let patches = diff(&t1, &t3);
    assert_eq!(positions(&patches), vec![1]);
    assert!(matches!(patches.get(&1), Some(Patch::Update(_))));
}

#[test]
fn equal_values_lead_to_the_children() {
    let t1 = Node::new("root", None, vec![Node::new("mid", None, vec![leaf("old")])]);
    let t2 = Node::new("root", None, vec![Node::new("mid", None, vec![leaf("new")])]);
    let patches = diff(&t1, &t2);
    assert_eq!(positions(&patches), vec![2]);
    assert_eq!(patch(&t1, &patches), vec!["root", "  mid", "    new(*)"]);
}

#[test]
fn reorder_is_two_replacements() {
    let t1 = Node::new("root", None, vec![leaf("x"), leaf("y")]);
    let t2 = Node::new("root", None, vec![leaf("y"), leaf("x")]);
    let patches = diff(&t1, &t2);
    assert_eq!(positions(&patches), vec![1, 2]);
    assert!(patches.values().all(|p| matches!(p, Patch::Update(_))));
    assert_eq!(patch(&t1, &patches), vec!["root", "  y(*)", "  x(*)"]);
}

#[test]
fn removal_does_not_disturb_a_later_insertion() {
    // a2 is removed with two vertices below it that are never numbered;
    // the insertion below b must still land on b
    let t1 = Node::new("root", None, vec![
        Node::new("a", None, vec![
            leaf("a1"),
            Node::new("a2", None, vec![leaf("deep1"), leaf("deep2")]),
        ]),
        Node::new("b", None, vec![leaf("b1")]),
    ]);
    let t2 = Node::new("root", None, vec![
        Node::new("a", None, vec![leaf("a1")]),
        Node::new("b", None, vec![leaf("b1"), leaf("b2")]),
    ]);
    let patches = diff(&t1, &t2);
    assert_eq!(positions(&patches), vec![3, 4]);
    assert!(matches!(patches.get(&3), Some(Patch::Remove)));
    match patches.get(&4) {
        Some(Patch::Insert(nodes)) => {
            assert_eq!(nodes.len(), 1);
            assert_eq!(*nodes[0].value(), "b2");
        },
        _ => panic!("position 4 holds no insertion"),
    }
    assert_eq!(
        patch(&t1, &patches),
        vec!["root", "  a", "    a1", "  b", "    b1", "    b2(*)"]
    );
}

#[test]
fn replacement_does_not_disturb_later_siblings() {
    // the replaced child has children that are never numbered; the patches
    // of the siblings behind it keep their own depth and mark
    let t1 = Node::new("root", None, vec![
        Node::new("a", None, vec![leaf("a1"), leaf("a2")]),
        Node::new("b", None, vec![leaf("b1")]),
        Node::new("c", None, vec![leaf("c1")]),
    ]);
    let t2 = Node::new("root", None, vec![
        Node::new("A", None, vec![leaf("a1")]),
        Node::new("b", None, vec![leaf("B1")]),
        Node::new("c", None, vec![leaf("c1"), leaf("c2")]),
    ]);
    let patches = diff(&t1, &t2);
    assert_eq!(positions(&patches), vec![1, 3, 4]);
    assert!(matches!(patches.get(&1), Some(Patch::Update(_))));
    assert!(matches!(patches.get(&3), Some(Patch::Update(_))));
    assert!(matches!(patches.get(&4), Some(Patch::Insert(_))));
    assert_eq!(
        patch(&t1, &patches),
        vec![
            "root",
            "  A(*)",
            "    a1(*)",
            "  b",
            "    B1(*)",
            "  c",
            "    c1",
            "    c2(*)",
        ]
    );
}

#[test]
fn insertion_comes_after_the_patched_children() {
    let t1 = Node::new("root", None, vec![leaf("x"), leaf("y")]);
    let t2 = Node::new("root", None, vec![
        leaf("x"),
        leaf("Y"),
        Node::new("z", None, vec![leaf("z1")]),
        leaf("w"),
    ]);
    let patches = diff(&t1, &t2);
    assert_eq!(positions(&patches), vec![0, 2]);
    assert_eq!(
        patch(&t1, &patches),
        vec!["root", "  x", "  Y(*)", "  z(*)", "    z1(*)", "  w(*)"]
    );
}

#[test]
fn patches_share_the_second_tree() {
    let replaced = Node::new("new", None, vec![leaf("below")]);
    let appended = leaf("more");
    let t1 = Node::new("root", None, vec![leaf("old")]);
    let t2 = Node::new("root", None, vec![replaced.clone(), appended.clone()]);
    let counted = Rc::strong_count(&replaced);
    let patches = diff(&t1, &t2);
    match patches.get(&1) {
        Some(Patch::Update(node)) => assert!(Rc::ptr_eq(node, &replaced)),
        _ => panic!("position 1 holds no replacement"),
    }
    match patches.get(&0) {
        Some(Patch::Insert(nodes)) => assert!(Rc::ptr_eq(&nodes[0], &appended)),
        _ => panic!("position 0 holds no insertion"),
    }
    assert_eq!(Rc::strong_count(&replaced), counted + 1);
}

#[test]
fn a_patch_at_an_unused_position_is_ignored() {
    let tree = Node::new("root", None, vec![leaf("x")]);
    let mut patches: HashMap<u32, Patch<&'static str>> = HashMap::new();
    patches.insert(7, Patch::Remove);
    patches.insert(9, Patch::Update(leaf("never")));
    assert_eq!(patch(&tree, &patches), vec!["root", "  x"]);
}

#[test]
fn a_removed_root_renders_nothing() {
    let tree = Node::new("root", None, vec![leaf("x")]);
    let mut patches: HashMap<u32, Patch<&'static str>> = HashMap::new();
    patches.insert(0, Patch::Remove);
    assert!(patch(&tree, &patches).is_empty());
}

#[test]
fn a_skipped_subtree_is_not_numbered() {
    // position 1 is removed, so its child is never numbered and the patch
    // at position 2 falls on the second child of the root
    let tree = Node::new("root", None, vec![
        Node::new("first", None, vec![leaf("inner")]),
        leaf("second"),
    ]);
    let mut patches: HashMap<u32, Patch<&'static str>> = HashMap::new();
    patches.insert(1, Patch::Remove);
    patches.insert(2, Patch::Update(leaf("SECOND")));
    assert_eq!(patch(&tree, &patches), vec!["root", "  SECOND(*)"]);
}

#[test]
fn indentation_is_two_spaces_a_level() {
    let chain = Node::new("0", None, vec![
        Node::new("1", None, vec![Node::new("2", None, vec![leaf("3")])]),
    ]);
    let none: HashMap<u32, Patch<&'static str>> = HashMap::new();
    assert_eq!(patch(&chain, &none), vec!["0", "  1", "    2", "      3"]);
    assert_eq!(tree_diff::patch::indent(0), "");
    assert_eq!(tree_diff::patch::indent(1), "  ");
    assert_eq!(tree_diff::patch::indent(4), "        ");
}

#[test]
fn marked_subtrees_keep_their_shape() {
    let t1 = leaf("old");
    let t2 = Node::new("new", None, vec![
        Node::new("a", None, vec![leaf("a1")]),
        leaf("b"),
    ]);
    let patches = diff(&t1, &t2);
    assert_eq!(
        patch(&t1, &patches),
        vec!["new(*)", "  a(*)", "    a1(*)", "  b(*)"]
    );
}

#[test]
fn values_of_another_type() {
    let t1: Rc<Node<u32>> = Node::new(1, None, vec![
        Node::new(2, None, vec![]),
        Node::new(3, None, vec![]),
    ]);
    let t2: Rc<Node<u32>> = Node::new(1, None, vec![
        Node::new(2, None, vec![]),
        Node::new(30, None, vec![]),
        Node::new(4, None, vec![]),
    ]);
    let patches = diff(&t1, &t2);
    let mut found: Vec<u32> = patches.keys().copied().collect();
    found.sort();
    assert_eq!(found, vec![0, 2]);
    assert_eq!(patch(&t1, &patches), vec!["1", "  2", "  30(*)", "  4(*)"]);
}

#[test]
fn shared_subtrees_are_numbered_each_time() {
    let shared = Node::new("s", None, vec![leaf("s1")]);
    let t1 = Node::new("root", None, vec![shared.clone(), shared.clone(), leaf("last")]);
    let t2 = Node::new("root", None, vec![shared.clone(), shared.clone(), leaf("LAST")]);
    let patches = diff(&t1, &t2);
    assert_eq!(positions(&patches), vec![5]);
    assert_eq!(
        patch(&t1, &patches),
        vec!["root", "  s", "    s1", "  s", "    s1", "  LAST(*)"]
    );
}

#[test]
fn small_trees_fit_the_counter() {
    let t1 = sample();
    let t2 = Node::new("a", None, vec![leaf("x")]);
    assert!(tree_diff::diff::diff_fits(&t1, &t2));
    assert!(tree_diff::diff::diff_fits(&t1, &t1));
    let patches = diff(&t1, &t2);
    assert!(tree_diff::patch::patch_fits(&t1, &patches));
    let none: HashMap<u32, Patch<&'static str>> = HashMap::new();
    assert!(tree_diff::patch::patch_fits(&t1, &none));
}

#[test]
fn a_patch_at_the_last_position_is_found() {
    // a tree of one vertex is applied at position 0 only, whatever else the
    // patch set holds, up to the last position that can be stored
    let tree = leaf("only");
    let mut patches: HashMap<u32, Patch<&'static str>> = HashMap::new();
    patches.insert(u32::MAX, Patch::Remove);
    assert!(tree_diff::patch::patch_fits(&tree, &patches));
    assert_eq!(patch(&tree, &patches), vec!["only"]);
}
