use st::store::check_branches;
use st::tree::{StackTree, TrackedBranch};

fn sample_tree() -> StackTree {
    let mut tree = StackTree::new("main".to_string());
    tree.add_trunk("dev".to_string());
    tree.insert("main", "m1", "a").unwrap();
    tree.insert("a", "a1", "b").unwrap();
    tree.switch_trunk("dev").unwrap();
    tree.insert("dev", "d1", "x").unwrap();
    tree.switch_trunk("main").unwrap();
    tree
}

#[test]
fn test_from_parts_reproduces_a_tree_exactly() {
    let tree = sample_tree();
    let rebuilt =
        StackTree::from_parts(tree.active_trunk.clone(), tree.trunks.clone()).unwrap();
    assert_eq!(rebuilt, tree);
}

#[test]
fn test_from_parts_rejects_missing_active_trunk() {
    let tree = sample_tree();
    let r = StackTree::from_parts("gone".to_string(), tree.trunks.clone());
    assert!(r.is_err());
}

#[test]
fn test_from_parts_rejects_duplicate_names() {
    let mut tree = sample_tree();
    let extra = tree.trunks[0].branches[1].clone();
    tree.trunks[0].branches.push(extra);
    let r = StackTree::from_parts(tree.active_trunk.clone(), tree.trunks.clone());
    assert!(r.is_err());
}

#[test]
fn test_from_parts_rejects_dangling_parent() {
    let mut tree = sample_tree();
    tree.trunks[0].branches.push(TrackedBranch {
        name: "orphan".to_string(),
        parent_oid_cache: Some("z1".to_string()),
        parent: Some("nowhere".to_string()),
        children: Vec::new(),
        remote: None,
    });
    let r = StackTree::from_parts(tree.active_trunk.clone(), tree.trunks.clone());
    assert!(r.is_err());
}

#[test]
fn test_migration_fixed_point_through_store() {
    // Load a legacy document, migrate, save (decompose into parts), and
    // re-load: the re-loaded tree equals the first post-load state.
    let mut tree = StackTree {
        active_trunk: String::new(),
        trunk_name: Some("master".to_string()),
        trunks: Vec::new(),
        branches: Some(vec![TrackedBranch::new("master".to_string(), None, None)]),
    };
    tree.migrate_if_needed();
    let reloaded =
        StackTree::from_parts(tree.active_trunk.clone(), tree.trunks.clone()).unwrap();
    assert_eq!(reloaded, tree);
    assert!(reloaded.trunk_name.is_none());
    assert!(reloaded.branches.is_none());
}

#[test]
fn test_check_branches_accepts_and_rejects() {
    let tree = sample_tree();
    assert!(check_branches(&tree.trunks[0].branches, "main"));
    // A child pointing at a parent that does not list it back is malformed.
    let mut branches = tree.trunks[0].branches.clone();
    branches[0].children.clear();
    assert!(!check_branches(&branches, "main"));
    // The trunk entry must come first and carry no parent.
    let mut branches = tree.trunks[0].branches.clone();
    branches[0].parent = Some("a".to_string());
    assert!(!check_branches(&branches, "main"));
}
