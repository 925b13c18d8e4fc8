use std::collections::HashMap;
use std::rc::Rc;
use tree_diff::{diff, key, patch, Node, Patch};

fn before() -> Rc<Node<&'static str>> {
    Node::new("root", None, vec![
        Node::new("child1", key("child1"), vec![
            Node::new("child1-1", None, vec![]),
        ]),
        Node::new("child2", key("child2"), vec![
            Node::new("child2-1", None, vec![]),
            Node::new("child2-2", None, vec![]),
        ]),
        Node::new("child3", key("child3"), vec![]),
    ])
}

fn after() -> Rc<Node<&'static str>> {
    Node::new("root", None, vec![
        Node::new("child1", key("child1"), vec![
        ]),
        Node::new("child2", key("child2"), vec![
            Node::new("child2-2", None, vec![]),
            Node::new("child2-1", None, vec![
                Node::new("child2-1-1", None, vec![]),
            ]),
        ]),
        Node::new("child4", key("child4"), vec![]),
        Node::new("child5", key("child5"), vec![]),
        Node::new("child6", key("child6"), vec![
            Node::new("child6-1", None, vec![]),
        ]),
    ])
}

/// The values of a subtree, in pre-order, with the number of children of each.
fn shape(node: &Rc<Node<&'static str>>, out: &mut Vec<(&'static str, usize)>) {
    out.push((*node.value(), node.children().len()));
    for child in node.children() {
        shape(child, out);
    }
}

fn shape_of(node: &Rc<Node<&'static str>>) -> Vec<(&'static str, usize)> {
    let mut out = Vec::new();
    shape(node, &mut out);
    out
}

#[test]
fn it_works() {
    let node1 = Node::new("root", None, vec![
        Node::new("child1", key("child1"), vec![
            Node::new("child1-1", None, vec![]),
        ]),
        Node::new("child2", key("child2"), vec![
            Node::new("child2-1", None, vec![]),
            Node::new("child2-2", None, vec![]),
        ]),
        Node::new("child3", key("child3"), vec![]),
    ]);
    let node2 = Node::new("root", None, vec![
        Node::new("child1", key("child1"), vec![
        ]),
        Node::new("child2", key("child2"), vec![
            Node::new("child2-2", None, vec![]),
            Node::new("child2-1", None, vec![
                Node::new("child2-1-1", None, vec![]),
            ]),
        ]),
        Node::new("child4", key("child4"), vec![]),
        Node::new("child5", key("child5"), vec![]),
        Node::new("child6", key("child6"), vec![
            Node::new("child6-1", None, vec![]),
        ]),
    ]);
    let result = diff(&node1, &node2);
    for (index, patch) in &result {
        match *patch {
            Patch::Update(ref node) => {
                println!("{} update {}", index, node.value());
            },
            Patch::Insert(ref nodes) => {
                for node in nodes {
                    println!("{} insert {}", index, node.value());
                }
            },
            Patch::Remove => {
                println!("{} remove", index);
            },
        }
    }
    for line in patch(&node1, &result) {
        println!("{}", line);
    }
}

#[test]
fn worked_scenario_positions_and_patches() {
    let result = diff(&before(), &after());
    let mut positions: Vec<u32> = result.keys().copied().collect();
    positions.sort();
    assert_eq!(positions, vec![0, 2, 4, 5, 6]);

    // child1 loses its only child, which stood at position 2
    assert!(matches!(result.get(&2), Some(Patch::Remove)));
    // the children of child2 are paired by index, so both are replaced
    match result.get(&4) {
        Some(Patch::Update(node)) => assert_eq!(shape_of(node), vec![("child2-2", 0)]),
        _ => panic!("position 4 holds no replacement"),
    }
    match result.get(&5) {
        Some(Patch::Update(node)) => {
            assert_eq!(shape_of(node), vec![("child2-1", 1), ("child2-1-1", 0)])
        },
        _ => panic!("position 5 holds no replacement"),
    }
    // child3 is paired with child4, which replaces it
    match result.get(&6) {
        Some(Patch::Update(node)) => assert_eq!(shape_of(node), vec![("child4", 0)]),
        _ => panic!("position 6 holds no replacement"),
    }
    // what the second root has beyond three children is appended at the root
    match result.get(&0) {
        Some(Patch::Insert(nodes)) => {
            assert_eq!(nodes.len(), 2);
            assert_eq!(shape_of(&nodes[0]), vec![("child5", 0)]);
            assert_eq!(shape_of(&nodes[1]), vec![("child6", 1), ("child6-1", 0)]);
        },
        _ => panic!("position 0 holds no insertion"),
    }
}

#[test]
fn worked_scenario_rendering() {
    let node1 = before();
    let result = diff(&node1, &after());
    let lines = patch(&node1, &result);
    assert_eq!(
        lines,
        vec![
            "root",
            "  child1",
            "  child2",
            "    child2-2(*)",
            "    child2-1(*)",
            "      child2-1-1(*)",
            "  child4(*)",
            "  child5(*)",
            "  child6(*)",
            "    child6-1(*)",
        ]
    );
}

#[test]
fn worked_scenario_leaves_the_trees_alone() {
    let node1 = before();
    let node2 = after();
    let result: HashMap<u32, Patch<&'static str>> = diff(&node1, &node2);
    let _ = patch(&node1, &result);
    assert_eq!(shape_of(&node1), shape_of(&before()));
    assert_eq!(shape_of(&node2), shape_of(&after()));
}
