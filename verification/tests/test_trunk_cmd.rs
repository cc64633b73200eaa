use st::tree::StackTree;
use st::trunk::{TrunkCmd, TrunkOutcome, TrunkSubcommand};

#[test]
fn test_trunk_list_outcome() {
    let mut tree = StackTree::new("main".to_string());
    tree.add_trunk("dev".to_string());
    let cmd = TrunkCmd {
        command: TrunkSubcommand::List,
    };
    match cmd.run(&mut tree, false, false).unwrap() {
        TrunkOutcome::Listed(names) => assert_eq!(names, vec!["main", "dev"]),
        other => panic!("expected a listing, got {:?}", other),
    }
}

#[test]
fn test_trunk_switch_and_missing() {
    let mut tree = StackTree::new("main".to_string());
    tree.add_trunk("dev".to_string());
    let cmd = TrunkCmd {
        command: TrunkSubcommand::Switch {
            trunk_name: "dev".to_string(),
        },
    };
    assert!(matches!(
        cmd.run(&mut tree, false, false).unwrap(),
        TrunkOutcome::Switched
    ));
    assert_eq!(tree.trunk_name(), "dev");

    let cmd = TrunkCmd {
        command: TrunkSubcommand::Switch {
            trunk_name: "nope".to_string(),
        },
    };
    assert!(cmd.run(&mut tree, false, false).is_err());
}

#[test]
fn test_trunk_add_checks_repository() {
    let mut tree = StackTree::new("main".to_string());
    let cmd = TrunkCmd {
        command: TrunkSubcommand::Add {
            trunk_name: "dev".to_string(),
        },
    };
    // The repository has no such branch: the add is refused.
    assert!(matches!(
        cmd.clone().run(&mut tree, false, false).unwrap(),
        TrunkOutcome::AddRefusedMissingBranch
    ));
    assert!(!tree.list_trunks().contains(&"dev".to_string()));

    assert!(matches!(
        cmd.run(&mut tree, true, false).unwrap(),
        TrunkOutcome::Added
    ));
    assert!(tree.list_trunks().contains(&"dev".to_string()));
}

#[test]
fn test_trunk_remove_needs_confirmation() {
    let mut tree = StackTree::new("main".to_string());
    tree.add_trunk("dev".to_string());
    let cmd = TrunkCmd {
        command: TrunkSubcommand::Remove {
            trunk_name: "dev".to_string(),
        },
    };
    assert!(matches!(
        cmd.clone().run(&mut tree, false, false).unwrap(),
        TrunkOutcome::RemoveCancelled
    ));
    assert!(tree.list_trunks().contains(&"dev".to_string()));

    assert!(matches!(
        cmd.run(&mut tree, false, true).unwrap(),
        TrunkOutcome::Removed
    ));
    assert!(!tree.list_trunks().contains(&"dev".to_string()));

    // The active trunk cannot be removed.
    let cmd = TrunkCmd {
        command: TrunkSubcommand::Remove {
            trunk_name: "main".to_string(),
        },
    };
    assert!(cmd.run(&mut tree, false, true).is_err());
}
