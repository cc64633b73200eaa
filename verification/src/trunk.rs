//! The `trunk` subcommand: listing, switching, adding and removing trunks.
//!
//! The interactive confirmation and the repository lookup that guard `add`
//! and `remove` happen outside; their answers come in as plain flags, and
//! every decision taken on them is verified against the tree's model.

use vstd::prelude::*;
use crate::errors::StResult;
use crate::tree::StackTree;

verus! {

/// Arguments of the `trunk` subcommand.
#[derive(Debug, Clone, PartialEq, Eq)]
pub struct TrunkCmd {
    /// The action to perform.
    pub command: TrunkSubcommand,
}

/// The actions of the `trunk` subcommand.
#[derive(Debug, Clone, PartialEq, Eq)]
pub enum TrunkSubcommand {
    /// List all trunk branches.
    List,
    /// Switch to a different trunk.
    Switch {
        /// The name of the trunk to switch to.
        trunk_name: String,
    },
    /// Add a new trunk branch.
    Add {
        /// The name of the new trunk branch.
        trunk_name: String,
    },
    /// Remove a trunk branch and all its tracked branches.
    Remove {
        /// The name of the trunk to remove.
        trunk_name: String,
    },
}

/// What a `trunk` action did, for the caller to report.
#[derive(Debug, Clone, PartialEq, Eq)]
pub enum TrunkOutcome {
    /// The trunk names, in order; the active trunk is the tree's.
    Listed(Vec<String>),
    /// The active trunk was switched.
    Switched,
    /// The trunk was added (or was already present).
    Added,
    /// The add was refused because the repository has no such branch.
    AddRefusedMissingBranch,
    /// The trunk was removed.
    Removed,
    /// The user declined the removal.
    RemoveCancelled,
}

impl TrunkCmd {
    /// Runs the action on `tree`. `branch_exists` reports whether the
    /// repository has a local branch named like the trunk to add;
    /// `confirmed` reports whether the user confirmed a removal. Neither is
    /// read by the other actions.
    pub fn run(self, tree: &mut StackTree, branch_exists: bool, confirmed: bool) -> (r: StResult<
        TrunkOutcome,
    >)
        requires
            old(tree)@.wf(),
        ensures
            final(tree)@.wf(),
            match self.command {
                TrunkSubcommand::List => (r matches Ok(o) && o matches TrunkOutcome::Listed(v)
                    && v@.len() == old(tree)@.trunks.len() && (forall|i: int|
                    0 <= i < v@.len() ==> (#[trigger] v@[i])@ == old(tree)@.trunks[i].name))
                    && final(tree)@ == old(tree)@,
                TrunkSubcommand::Switch { trunk_name } => {
                    &&& old(tree)@.has_trunk(trunk_name@) ==> (r matches Ok(o) && o is Switched)
                        && final(tree)@ == old(tree)@.with_active(trunk_name@)
                    &&& !old(tree)@.has_trunk(trunk_name@) ==> r is Err
                        && final(tree)@ == old(tree)@
                },
                TrunkSubcommand::Add { trunk_name } => {
                    &&& !branch_exists ==> (r matches Ok(o) && o is AddRefusedMissingBranch)
                        && final(tree)@ == old(tree)@
                    &&& branch_exists ==> (r matches Ok(o) && o is Added)
                        && final(tree)@ == old(tree)@.spec_add_trunk(trunk_name@)
                },
                TrunkSubcommand::Remove { trunk_name } => {
                    &&& !confirmed ==> (r matches Ok(o) && o is RemoveCancelled) && final(tree)@
                        == old(tree)@
                    &&& confirmed && trunk_name@ != old(tree)@.active_trunk
                        && old(tree)@.has_trunk(trunk_name@) ==> (r matches Ok(o) && o is Removed)
                        && final(tree)@ == old(tree)@.spec_remove_trunk(trunk_name@)
                    &&& confirmed && (trunk_name@ == old(tree)@.active_trunk
                        || !old(tree)@.has_trunk(trunk_name@)) ==> r is Err
                        && final(tree)@ == old(tree)@
                },
            },
    {
        match &self.command {
            TrunkSubcommand::List => {
                let names = tree.list_trunks();
                Ok(TrunkOutcome::Listed(names))
            },
            TrunkSubcommand::Switch { trunk_name } => {
                match tree.switch_trunk(trunk_name.as_str()) {
                    Ok(_) => Ok(TrunkOutcome::Switched),
                    Err(e) => Err(e),
                }
            },
            TrunkSubcommand::Add { trunk_name } => {
                if !branch_exists {
                    Ok(TrunkOutcome::AddRefusedMissingBranch)
                } else {
                    tree.add_trunk(trunk_name.clone());
                    Ok(TrunkOutcome::Added)
                }
            },
            TrunkSubcommand::Remove { trunk_name } => {
                if !confirmed {
                    Ok(TrunkOutcome::RemoveCancelled)
                } else {
                    match tree.remove_trunk(trunk_name.as_str()) {
                        Ok(_) => Ok(TrunkOutcome::Removed),
                        Err(e) => Err(e),
                    }
                }
            },
        }
    }
}

} // verus!
