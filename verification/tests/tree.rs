use webscraper::tree::build_initial_tree;
use webscraper::tree::compare_tree_structure;
use webscraper::tree::Tree;
use webscraper::tree::TreeNode;
use webscraper::tree::TreeNodeDeserialize;
use webscraper::tree::TreeNodeType;

#[test]
fn test_initial_tree_structure() {
    let initial_tree = build_initial_tree();

    // Define the expected tree structure
    let expected_structure = TreeNode {
        id: 1,
        name: "Root".to_string(),
        node_type: TreeNodeType::Branch,
        children: Some(vec![
            TreeNode {
                id: 2,
                name: "Leaf1".to_string(),
                children: None,
                node_type: TreeNodeType::Leaf,
            },
            TreeNode {
                id: 3,
                name: "Leaf2".to_string(),
                children: None,
                node_type: TreeNodeType::Leaf,
            },
            TreeNode {
                id: 4,
                name: "Leaf3".to_string(),
                node_type: TreeNodeType::Branch,
                children: Some(vec![
                    TreeNode {
                        id: 5,
                        name: "Leaf7".to_string(),
                        node_type: TreeNodeType::Branch,
                        children: Some(vec![
                            TreeNode {
                                id: 6,
                                name: "Leaf13".to_string(),
                                children: None,
                                node_type: TreeNodeType::Leaf,
                            },
                            TreeNode {
                                id: 7,
                                name: "Leaf14".to_string(),
                                children: None,
                                node_type: TreeNodeType::Leaf,
                            },
                        ]),
                    },
                    TreeNode {
                        id: 8,
                        name: "Leaf8".to_string(),
                        node_type: TreeNodeType::Branch,
                        children: Some(vec![TreeNode {
                            id: 9,
                            name: "Leaf9".to_string(),
                            children: None,
                            node_type: TreeNodeType::Leaf,
                        }]),
                    },
                ]),
            },
            TreeNode {
                id: 10,
                name: "Leaf4".to_string(),
                children: None,
                node_type: TreeNodeType::Leaf,
            },
            TreeNode {
                id: 11,
                name: "Leaf5".to_string(),
                children: None,
                node_type: TreeNodeType::Leaf,
            },
        ]),
    };

    // Perform the comparison
    assert_eq!(
        compare_tree_structure(initial_tree.get_nodes(), &expected_structure),
        true
    );
}

#[test]
fn compare_rejects_renamed_node() {
    let tree = build_initial_tree();
    let expected = TreeNode {
        id: 1,
        name: "Elsewhere".to_string(),
        node_type: TreeNodeType::Branch,
        children: None,
    };
    assert_eq!(compare_tree_structure(tree.get_nodes(), &expected), false);
}

#[test]
fn add_node_at_root_level() {
    let mut tree = Tree::new();
    let first = tree.add_node("Alpha", None, false, false);
    assert_eq!(first.id, 1);
    assert_eq!(first.name, "Alpha");
    let second = tree.add_node("Beta", None, false, false);
    assert_eq!(second.id, 2);
    let nodes = tree.get_nodes();
    assert_eq!(nodes.len(), 2);
    assert_eq!(nodes[0].name, "Alpha");
    assert_eq!(nodes[1].name, "Beta");
}

#[test]
fn add_node_under_missing_parent_adds_nothing() {
    let mut tree = Tree::new();
    let _root = tree.add_node("Alpha", None, false, false);
    let orphan = tree.add_node("Orphan", Some(99), true, false);
    // the identifier is consumed even though nothing was attached
    assert_eq!(orphan.id, 2);
    let nodes = tree.get_nodes();
    assert_eq!(nodes.len(), 1);
    assert!(nodes[0].children.is_none());
    let next = tree.add_node("Gamma", None, false, false);
    assert_eq!(next.id, 3);
}

#[test]
fn add_node_without_append_wraps_leaf_in_branch() {
    let mut tree = Tree::new();
    let root = tree.add_node("Alpha", None, false, false);
    let leaf = tree.add_node("Beta", Some(root.id), false, false);
    assert_eq!(leaf.id, 2);
    assert!(leaf.children.is_none());
    let nodes = tree.get_nodes();
    let children = nodes[0].children.as_ref().expect("a child was attached");
    assert_eq!(children.len(), 1);
    // the attached node is a branch of the same name and id, holding the leaf
    assert_eq!(children[0].id, 2);
    assert_eq!(children[0].name, "Beta");
    let inner = children[0].children.as_ref().expect("the branch holds the leaf");
    assert_eq!(inner.len(), 1);
    assert_eq!(inner[0].id, 2);
}

#[test]
fn add_node_update_renames_in_place() {
    let mut tree = Tree::new();
    let root = tree.add_node("Alpha", None, false, false);
    let child = tree.add_node("Beta", Some(root.id), true, false);
    let renamed = tree.add_node("Gamma", Some(child.id), true, true);
    assert_eq!(renamed.id, child.id);
    assert_eq!(renamed.name, "Gamma");
    let nodes = tree.get_nodes();
    let children = nodes[0].children.as_ref().expect("the child is still there");
    assert_eq!(children[0].name, "Gamma");
    // renaming consumes no identifier
    let next = tree.add_node("Delta", None, false, false);
    assert_eq!(next.id, 3);
}

#[test]
fn find_node_by_id_walks_depth_first() {
    let tree = build_initial_tree();
    let found = tree.find_node_by_id(9).expect("node 9 exists");
    assert_eq!(found.name, "Leaf9");
    assert!(tree.find_node_by_id(42).is_none());
}

#[test]
fn duplicate_copies_the_whole_subtree() {
    let tree = build_initial_tree();
    let original = &tree.get_nodes()[0];
    let copy = original.duplicate();
    assert_eq!(copy.id, original.id);
    assert_eq!(copy.name, original.name);
    assert_eq!(
        copy.children.as_ref().map(|c| c.len()),
        original.children.as_ref().map(|c| c.len())
    );
}

#[test]
fn parse_json_value_builds_nested_nodes() {
    let description = TreeNodeDeserialize {
        id: None,
        name: "Top".to_string(),
        node_type: TreeNodeType::Branch,
        children: Some(vec![
            TreeNodeDeserialize {
                id: Some(50),
                name: "Fixed".to_string(),
                node_type: TreeNodeType::Leaf,
                children: None,
            },
            TreeNodeDeserialize {
                id: None,
                name: "Fresh".to_string(),
                node_type: TreeNodeType::Leaf,
                children: None,
            },
        ]),
    };
    let mut tree = Tree::new();
    webscraper::tree::parse_json_value(&description, &mut tree, None);
    let nodes = tree.get_nodes();
    assert_eq!(nodes.len(), 1);
    assert_eq!(nodes[0].id, 1);
    assert_eq!(nodes[0].name, "Top");
    let children = nodes[0].children.as_ref().expect("children were attached");
    assert_eq!(children.len(), 2);
    assert_eq!(children[0].id, 50);
    assert_eq!(children[0].name, "Fixed");
    // the fresh child got the next counter value after "Top" consumed 1
    assert_eq!(children[1].id, 2);
    assert_eq!(children[1].name, "Fresh");
}

#[test]
fn parse_json_value_drops_children_of_missing_parent() {
    let description = TreeNodeDeserialize {
        id: Some(7),
        name: "Stray".to_string(),
        node_type: TreeNodeType::Leaf,
        children: None,
    };
    let mut tree = Tree::new();
    webscraper::tree::parse_json_value(&description, &mut tree, Some(99));
    assert_eq!(tree.get_nodes().len(), 0);
}
