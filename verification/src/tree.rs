//! The persisted stack model: a multi-trunk, n-ary tree of tracked branches
//! with bidirectional parent/child edges, cached parent commit identifiers,
//! and remote metadata.
//!
//! Every operation is specified against a mathematical model of the tree
//! ([`TreeModel`]) and the well-formedness predicate [`TreeModel::wf`], which
//! captures the documented invariants: closure of the parent/child edges,
//! uniqueness of names per trunk, acyclicity (every parent stands earlier in
//! the branch list than its children), a self-rooted trunk entry, cache
//! validity, and presence of the active trunk.

use vstd::prelude::*;
use crate::errors::{StError, StResult};
use crate::strutil::{clone_names, str_eq};

verus! {

/// Remote metadata for a branch: the number of the pull request associated
/// with the branch, and the id of the stack-overview comment on it.
#[derive(Debug, Clone, Copy, PartialEq, Eq)]
pub struct RemoteMetadata {
    /// The number of the pull request on the remote service.
    pub pr_number: u64,
    /// The id of the stack-overview comment on the pull request, once one
    /// has been created.
    pub comment_id: Option<u64>,
}

impl RemoteMetadata {
    /// Creates remote metadata with the given pull-request number and no
    /// stack-overview comment yet.
    pub fn new(pr_number: u64) -> (r: RemoteMetadata)
        ensures
            r.pr_number == pr_number,
            r.comment_id is None,
    {
        RemoteMetadata { pr_number, comment_id: None }
    }
}

/// A local branch tracked by the tool.
#[derive(Debug, Clone, PartialEq, Eq)]
pub struct TrackedBranch {
    /// The branch name.
    pub name: String,
    /// The parent branch's commit id at the time this branch was last
    /// restacked. `None` iff the branch is a trunk.
    pub parent_oid_cache: Option<String>,
    /// The name of the parent branch. `None` iff the branch is a trunk.
    pub parent: Option<String>,
    /// The names of the child branches (no duplicates).
    pub children: Vec<String>,
    /// The remote metadata for the branch, if a pull request exists.
    pub remote: Option<RemoteMetadata>,
}

/// The mathematical model of a tracked branch.
#[verifier::ext_equal]
pub ghost struct BranchModel {
    pub name: Seq<char>,
    pub parent: Option<Seq<char>>,
    pub parent_oid_cache: Option<Seq<char>>,
    pub children: Seq<Seq<char>>,
    pub remote: Option<RemoteMetadata>,
}

impl View for TrackedBranch {
    type V = BranchModel;

    open spec fn view(&self) -> BranchModel {
        BranchModel {
            name: self.name@,
            parent: match self.parent {
                Some(p) => Some(p@),
                None => None,
            },
            parent_oid_cache: match self.parent_oid_cache {
                Some(c) => Some(c@),
                None => None,
            },
            children: self.children.deep_view(),
            remote: self.remote,
        }
    }
}

impl TrackedBranch {
    /// Creates a tracked branch with the given name, parent, and cached
    /// parent commit id; it starts with no children and no remote metadata.
    pub fn new(
        branch_name: String,
        parent: Option<String>,
        parent_oid_cache: Option<String>,
    ) -> (r: TrackedBranch)
        ensures
            r@ == (BranchModel {
                name: branch_name@,
                parent: match parent {
                    Some(p) => Some(p@),
                    None => None::<Seq<char>>,
                },
                parent_oid_cache: match parent_oid_cache {
                    Some(c) => Some(c@),
                    None => None::<Seq<char>>,
                },
                children: Seq::<Seq<char>>::empty(),
                remote: None::<RemoteMetadata>,
            }),
    {
        let r = TrackedBranch {
            name: branch_name,
            parent,
            parent_oid_cache,
            children: Vec::new(),
            remote: None,
        };
        proof {
            assert(r.children.deep_view() =~= Seq::<Seq<char>>::empty());
        }
        r
    }
}

/// Branches associated with a specific trunk. The entry at index 0 is always
/// the trunk's own self-rooted entry.
#[derive(Debug, Clone, PartialEq, Eq)]
pub struct TrunkBranches {
    /// The trunk branch name.
    pub name: String,
    /// The branches tracked under this trunk, the trunk's own entry first.
    pub branches: Vec<TrackedBranch>,
}

/// The mathematical model of one trunk and its branches.
#[verifier::ext_equal]
pub ghost struct TrunkModel {
    pub name: Seq<char>,
    pub branches: Seq<BranchModel>,
}

impl View for TrunkBranches {
    type V = TrunkModel;

    open spec fn view(&self) -> TrunkModel {
        TrunkModel { name: self.name@, branches: models(self.branches@) }
    }
}

/// The branch models of a sequence of tracked branches, in order.
pub open spec fn models(s: Seq<TrackedBranch>) -> Seq<BranchModel> {
    s.map_values(|b: TrackedBranch| b@)
}

/// The trunk models of a sequence of trunks, in order.
pub open spec fn trunk_models(s: Seq<TrunkBranches>) -> Seq<TrunkModel> {
    s.map_values(|t: TrunkBranches| t@)
}

/// The tree of tracked branches, one rooted tree per trunk.
#[derive(Debug, Clone, PartialEq, Eq)]
pub struct StackTree {
    /// The name of the active trunk branch.
    pub active_trunk: String,
    /// Legacy field accepted on load only; migrated into `trunks`.
    pub trunk_name: Option<String>,
    /// The trunks, each with its branches.
    pub trunks: Vec<TrunkBranches>,
    /// Legacy field accepted on load only; migrated into `trunks`.
    pub branches: Option<Vec<TrackedBranch>>,
}

/// The mathematical model of the whole tree.
#[verifier::ext_equal]
pub ghost struct TreeModel {
    pub active_trunk: Seq<char>,
    pub trunk_name: Option<Seq<char>>,
    pub trunks: Seq<TrunkModel>,
    pub branches: Option<Seq<BranchModel>>,
}

impl View for StackTree {
    type V = TreeModel;

    open spec fn view(&self) -> TreeModel {
        TreeModel {
            active_trunk: self.active_trunk@,
            trunk_name: match self.trunk_name {
                Some(t) => Some(t@),
                None => None,
            },
            trunks: trunk_models(self.trunks@),
            branches: match self.branches {
                Some(b) => Some(models(b@)),
                None => None,
            },
        }
    }
}

/// The index of the first branch named `name` in `s`, or `s.len()` if no
/// branch has that name.
pub open spec fn first_idx_br(s: Seq<BranchModel>, name: Seq<char>) -> int
    decreases s.len(),
{
    if s.len() == 0 {
        0
    } else if s[0].name == name {
        0
    } else {
        1 + first_idx_br(s.drop_first(), name)
    }
}

/// Whether some branch in `s` is named `name`.
pub open spec fn has_br(s: Seq<BranchModel>, name: Seq<char>) -> bool {
    first_idx_br(s, name) < s.len()
}

pub proof fn lemma_first_idx_br(s: Seq<BranchModel>, name: Seq<char>)
    ensures
        0 <= first_idx_br(s, name) <= s.len(),
        first_idx_br(s, name) < s.len() ==> s[first_idx_br(s, name)].name == name,
        forall|j: int| 0 <= j < first_idx_br(s, name) ==> s[j].name != name,
    decreases s.len(),
{
    if s.len() == 0 {
    } else if s[0].name == name {
    } else {
        lemma_first_idx_br(s.drop_first(), name);
        assert forall|j: int| 0 <= j < first_idx_br(s, name) implies s[j].name != name by {
            if j > 0 {
                assert(s.drop_first()[j - 1] == s[j]);
            }
        }
    }
}

/// The index of the first trunk named `name` in `s`, or `s.len()` if no
/// trunk has that name.
pub open spec fn first_idx_tr(s: Seq<TrunkModel>, name: Seq<char>) -> int
    decreases s.len(),
{
    if s.len() == 0 {
        0
    } else if s[0].name == name {
        0
    } else {
        1 + first_idx_tr(s.drop_first(), name)
    }
}

pub proof fn lemma_first_idx_tr(s: Seq<TrunkModel>, name: Seq<char>)
    ensures
        0 <= first_idx_tr(s, name) <= s.len(),
        first_idx_tr(s, name) < s.len() ==> s[first_idx_tr(s, name)].name == name,
        forall|j: int| 0 <= j < first_idx_tr(s, name) ==> s[j].name != name,
    decreases s.len(),
{
    if s.len() == 0 {
    } else if s[0].name == name {
    } else {
        lemma_first_idx_tr(s.drop_first(), name);
        assert forall|j: int| 0 <= j < first_idx_tr(s, name) implies s[j].name != name by {
            if j > 0 {
                assert(s.drop_first()[j - 1] == s[j]);
            }
        }
    }
}

/// When `s[i]` is the first entry named `name`, `first_idx_br` returns `i`.
pub proof fn lemma_first_idx_br_is(s: Seq<BranchModel>, name: Seq<char>, i: int)
    requires
        0 <= i < s.len(),
        s[i].name == name,
        forall|j: int| 0 <= j < i ==> (#[trigger] s[j]).name != name,
    ensures
        first_idx_br(s, name) == i,
{
    lemma_first_idx_br(s, name);
    let fi = first_idx_br(s, name);
    if fi < i {
        assert(s[fi].name == name);
        assert(false);
    }
    if fi > i {
        assert(s[i].name != name);
        assert(false);
    }
}

/// When no entry of `s` is named `name`, `first_idx_br` returns `s.len()`.
pub proof fn lemma_first_idx_br_none(s: Seq<BranchModel>, name: Seq<char>)
    requires
        forall|j: int| 0 <= j < s.len() ==> (#[trigger] s[j]).name != name,
    ensures
        first_idx_br(s, name) == s.len(),
{
    lemma_first_idx_br(s, name);
    let fi = first_idx_br(s, name);
    if fi < s.len() {
        assert(s[fi].name == name);
        assert(false);
    }
}

/// When `s[i]` is the first trunk named `name`, `first_idx_tr` returns `i`.
pub proof fn lemma_first_idx_tr_is(s: Seq<TrunkModel>, name: Seq<char>, i: int)
    requires
        0 <= i < s.len(),
        s[i].name == name,
        forall|j: int| 0 <= j < i ==> (#[trigger] s[j]).name != name,
    ensures
        first_idx_tr(s, name) == i,
{
    lemma_first_idx_tr(s, name);
    let fi = first_idx_tr(s, name);
    if fi < i {
        assert(s[fi].name == name);
        assert(false);
    }
    if fi > i {
        assert(s[i].name != name);
        assert(false);
    }
}

/// When no trunk of `s` is named `name`, `first_idx_tr` returns `s.len()`.
pub proof fn lemma_first_idx_tr_none(s: Seq<TrunkModel>, name: Seq<char>)
    requires
        forall|j: int| 0 <= j < s.len() ==> (#[trigger] s[j]).name != name,
    ensures
        first_idx_tr(s, name) == s.len(),
{
    lemma_first_idx_tr(s, name);
    let fi = first_idx_tr(s, name);
    if fi < s.len() {
        assert(s[fi].name == name);
        assert(false);
    }
}

/// The model of a fresh self-rooted trunk entry.
pub open spec fn root_model(t: Seq<char>) -> BranchModel {
    BranchModel {
        name: t,
        parent: None,
        parent_oid_cache: None,
        children: Seq::empty(),
        remote: None,
    }
}

/// The `k`-th child entry of `s[i]` names a branch that exists in `s` and
/// whose parent pointer points back at `s[i]`.
pub open spec fn child_entry_ok(s: Seq<BranchModel>, i: int, k: int) -> bool {
    let c = s[i].children[k];
    let ci = first_idx_br(s, c);
    &&& ci < s.len()
    &&& s[ci].parent == Some(s[i].name)
}

/// Well-formedness of one trunk's branch list `s`, rooted at `trunk`:
/// the trunk's self entry stands first with no parent and no cache; every
/// other entry has a parent and a cache; names are unique; every parent
/// stands strictly earlier in the list than its children (which yields
/// acyclicity); and the parent/child edges are closed in both directions,
/// with no duplicate child entries.
pub open spec fn wf_branches(s: Seq<BranchModel>, trunk: Seq<char>) -> bool {
    &&& 1 <= s.len()
    &&& s[0].name == trunk
    &&& s[0].parent is None
    &&& s[0].parent_oid_cache is None
    &&& forall|i: int| 1 <= i < s.len() ==> (#[trigger] s[i]).parent is Some
    &&& forall|i: int| 1 <= i < s.len() ==> (#[trigger] s[i]).parent_oid_cache is Some
    &&& forall|i: int, j: int|
        0 <= i < j < s.len() ==> (#[trigger] s[i]).name != (#[trigger] s[j]).name
    &&& forall|i: int| 1 <= i < s.len() ==> first_idx_br(s, (#[trigger] s[i]).parent->0) < i
    &&& forall|i: int|
        1 <= i < s.len() ==> (#[trigger] s[first_idx_br(s, s[i].parent->0)]).children.contains(
            s[i].name,
        )
    &&& forall|i: int, k: int|
        0 <= i < s.len() && 0 <= k < s[i].children.len() ==> #[trigger] child_entry_ok(s, i, k)
    &&& forall|i: int, k: int, l: int|
        0 <= i < s.len() && 0 <= k < l < s[i].children.len() ==> (#[trigger] s[i].children[k])
            != (#[trigger] s[i].children[l])
}

impl TrunkModel {
    /// Well-formedness of one trunk's model.
    pub open spec fn wf(self) -> bool {
        wf_branches(self.branches, self.name)
    }
}

impl TreeModel {
    /// Whether a trunk named `t` exists.
    pub open spec fn has_trunk(self, t: Seq<char>) -> bool {
        first_idx_tr(self.trunks, t) < self.trunks.len()
    }

    /// The index of the active trunk.
    pub open spec fn active_idx(self) -> int {
        first_idx_tr(self.trunks, self.active_trunk)
    }

    /// The branch list of the active trunk, or the empty list when the
    /// active trunk is absent.
    pub open spec fn active(self) -> Seq<BranchModel> {
        if self.has_trunk(self.active_trunk) {
            self.trunks[self.active_idx()].branches
        } else {
            Seq::empty()
        }
    }

    /// Well-formedness of the whole tree: no legacy fields, the active trunk
    /// present, trunk names unique, and every trunk's branch list
    /// well-formed and rooted at that trunk's name.
    pub open spec fn wf(self) -> bool {
        &&& self.trunk_name is None
        &&& self.branches is None
        &&& self.has_trunk(self.active_trunk)
        &&& forall|i: int, j: int|
            0 <= i < j < self.trunks.len() ==> (#[trigger] self.trunks[i]).name != (
            #[trigger] self.trunks[j]).name
        &&& forall|i: int| 0 <= i < self.trunks.len() ==> (#[trigger] self.trunks[i]).wf()
    }

    /// The model after switching the active trunk.
    pub open spec fn with_active(self, t: Seq<char>) -> TreeModel {
        TreeModel { active_trunk: t, ..self }
    }

    /// The model after adding a trunk named `t` (no change if present).
    pub open spec fn spec_add_trunk(self, t: Seq<char>) -> TreeModel {
        if self.has_trunk(t) {
            self
        } else {
            TreeModel {
                trunks: self.trunks.push(TrunkModel { name: t, branches: seq![root_model(t)] }),
                ..self
            }
        }
    }

    /// The model after removing the trunk named `t` (meaningful when `t` is
    /// present and not active).
    pub open spec fn spec_remove_trunk(self, t: Seq<char>) -> TreeModel {
        TreeModel { trunks: self.trunks.remove(first_idx_tr(self.trunks, t)), ..self }
    }

    /// The branch of the active trunk named `name`, if any.
    pub open spec fn spec_get(self, name: Seq<char>) -> Option<BranchModel> {
        let s = self.active();
        if has_br(s, name) {
            Some(s[first_idx_br(s, name)])
        } else {
            None
        }
    }

    /// The model with the active trunk's branch list replaced by `s`
    /// (meaningful when the active trunk is present).
    pub open spec fn with_active_branches(self, s: Seq<BranchModel>) -> TreeModel {
        TreeModel {
            trunks: self.trunks.update(
                self.active_idx(),
                TrunkModel { name: self.trunks[self.active_idx()].name, branches: s },
            ),
            ..self
        }
    }

    /// Whether `insert` succeeds: the parent is tracked in the active trunk
    /// and the new name is not.
    pub open spec fn insert_ok(self, parent: Seq<char>, name: Seq<char>) -> bool {
        &&& has_br(self.active(), parent)
        &&& !has_br(self.active(), name)
    }

    /// The model after inserting `name` as a child of `parent` with cached
    /// parent commit id `oid` (meaningful when `insert_ok` holds).
    pub open spec fn spec_insert(self, parent: Seq<char>, oid: Seq<char>, name: Seq<char>) -> TreeModel {
        self.with_active_branches(spec_insert_branches(self.active(), parent, oid, name))
    }

    /// Whether `delete` succeeds: `name` is tracked in the active trunk and
    /// is not the trunk entry itself.
    pub open spec fn delete_ok(self, name: Seq<char>) -> bool {
        &&& has_br(self.active(), name)
        &&& self.active()[first_idx_br(self.active(), name)].parent is Some
    }

    /// The model after deleting `name` from the active trunk (meaningful
    /// when `delete_ok` holds).
    pub open spec fn spec_delete(self, name: Seq<char>) -> TreeModel {
        self.with_active_branches(spec_delete_branches(self.active(), name))
    }

    /// The model after migrating the legacy single-trunk form: when both
    /// legacy fields are present, they move into `trunks` (replacing a trunk
    /// of the same name) and the migrated trunk becomes active; the legacy
    /// fields are cleared in every case.
    pub open spec fn spec_migrate(self) -> TreeModel {
        if self.trunk_name is Some && self.branches is Some {
            let t = self.trunk_name->0;
            let tm = TrunkModel { name: t, branches: self.branches->0 };
            TreeModel {
                active_trunk: t,
                trunk_name: None,
                branches: None,
                trunks: if self.has_trunk(t) {
                    self.trunks.update(first_idx_tr(self.trunks, t), tm)
                } else {
                    self.trunks.push(tm)
                },
            }
        } else {
            TreeModel { trunk_name: None, branches: None, ..self }
        }
    }
}

/// The branch list after inserting `name` as a child of `parent`: the parent
/// entry (at its first index) gains `name` at the end of its child list, and
/// a fresh entry for `name` is appended.
pub open spec fn spec_insert_branches(
    s: Seq<BranchModel>,
    parent: Seq<char>,
    oid: Seq<char>,
    name: Seq<char>,
) -> Seq<BranchModel> {
    let pi = first_idx_br(s, parent);
    let s1 = s.update(pi, BranchModel { children: s[pi].children.push(name), ..s[pi] });
    s1.push(
        BranchModel {
            name: name,
            parent: Some(parent),
            parent_oid_cache: Some(oid),
            children: Seq::empty(),
            remote: None,
        },
    )
}

/// The branch list `s1` after re-parenting: the entry at `pi` loses `name`
/// from its child list and gains `kids` at the end, and every entry whose
/// name is among `kids` has its parent pointer set to `s1[pi]`'s name.
pub open spec fn reparented(
    s1: Seq<BranchModel>,
    pi: int,
    name: Seq<char>,
    kids: Seq<Seq<char>>,
) -> Seq<BranchModel> {
    Seq::new(
        s1.len(),
        |j: int|
            if j == pi {
                BranchModel {
                    children: s1[pi].children.remove_value(name) + kids,
                    ..s1[pi]
                }
            } else if kids.contains(s1[j].name) {
                BranchModel { parent: Some(s1[pi].name), ..s1[j] }
            } else {
                s1[j]
            },
    )
}

/// The branch list after deleting `name`: the entry is removed, its name is
/// struck from its parent's child list, and each of its children is
/// re-parented onto that parent (meaningful when `name` is present and has
/// a parent).
pub open spec fn spec_delete_branches(s: Seq<BranchModel>, name: Seq<char>) -> Seq<BranchModel> {
    let bi = first_idx_br(s, name);
    let b = s[bi];
    let p_name = b.parent->0;
    let s1 = s.remove(bi);
    let pi = first_idx_br(s1, p_name);
    reparented(s1, pi, name, b.children)
}


/// Finds the index of the first entry of `v` whose view equals `name`'s.
pub(crate) fn find_name(v: &Vec<String>, name: &str) -> (r: Option<usize>)
    ensures
        match r {
            Some(i) => i < v@.len() && v.deep_view().index_of_first(name@) == Some(i as int),
            None => v.deep_view().index_of_first(name@) is None,
        },
{
    let ghost dv = v.deep_view();
    let mut i: usize = 0;
    while i < v.len()
        invariant
            i <= v@.len(),
            dv == v.deep_view(),
            forall|j: int| 0 <= j < i ==> dv[j] != name@,
        decreases v@.len() - i,
    {
        if str_eq(v[i].as_str(), name) {
            proof {
                assert(dv[i as int] == name@);
                dv.index_of_first_ensures(name@);
                assert(dv.contains(name@));
                match dv.index_of_first(name@) {
                    Some(fi) => {
                        if fi < i {
                            assert(dv[fi] == name@);
                            assert(false);
                        }
                        if fi > i {
                            assert(dv[i as int] != name@);
                            assert(false);
                        }
                    },
                    None => {
                        assert(false);
                    },
                }
            }
            return Some(i);
        }
        proof {
            assert(dv[i as int] != name@);
        }
        i = i + 1;
    }
    proof {
        dv.index_of_first_ensures(name@);
        match dv.index_of_first(name@) {
            Some(fi) => {
                assert(dv[fi] == name@);
                assert(false);
            },
            None => {},
        }
    }
    None
}

/// Strikes the first occurrence of `name` from a list of child names.
fn remove_child_name(v: &mut Vec<String>, name: &str)
    ensures
        final(v).deep_view() == old(v).deep_view().remove_value(name@),
{
    let found = find_name(v, name);
    match found {
        Some(i) => {
            v.remove(i);
            proof {
                assert(v.deep_view() =~= old(v).deep_view().remove(i as int));
            }
        },
        None => {},
    }
}

/// Finds the index of the branch named `name` in `v`, scanning from the
/// front, so the result agrees with [`first_idx_br`] on the model.
pub(crate) fn find_br(v: &Vec<TrackedBranch>, name: &str) -> (r: Option<usize>)
    ensures
        match r {
            Some(i) => i < v@.len() && first_idx_br(models(v@), name@) == i,
            None => first_idx_br(models(v@), name@) == v@.len(),
        },
{
    proof {
        lemma_first_idx_br(models(v@), name@);
    }
    let mut i: usize = 0;
    while i < v.len()
        invariant
            i <= v@.len(),
            forall|j: int| 0 <= j < i ==> (#[trigger] models(v@)[j]).name != name@,
        decreases v@.len() - i,
    {
        if str_eq(v[i].name.as_str(), name) {
            proof {
                let m = models(v@);
                lemma_first_idx_br(m, name@);
                let fi = first_idx_br(m, name@);
                assert(m[i as int].name == name@);
                if fi < i {
                    assert(m[fi].name == name@);
                    assert(false);
                }
                if fi > i {
                    assert(m[i as int].name != name@);
                    assert(false);
                }
            }
            return Some(i);
        }
        proof {
            assert(models(v@)[i as int].name != name@);
        }
        i = i + 1;
    }
    proof {
        let m = models(v@);
        lemma_first_idx_br(m, name@);
        let fi = first_idx_br(m, name@);
        if fi < m.len() {
            assert(m[fi].name == name@);
            assert(false);
        }
    }
    None
}

/// Finds the index of the trunk named `name` in `v`, scanning from the
/// front, so the result agrees with [`first_idx_tr`] on the model.
pub(crate) fn find_tr(v: &Vec<TrunkBranches>, name: &str) -> (r: Option<usize>)
    ensures
        match r {
            Some(i) => i < v@.len() && first_idx_tr(trunk_models(v@), name@)
                == i,
            None => first_idx_tr(trunk_models(v@), name@) == v@.len(),
        },
{
    proof {
        lemma_first_idx_tr(trunk_models(v@), name@);
    }
    let mut i: usize = 0;
    while i < v.len()
        invariant
            i <= v@.len(),
            forall|j: int|
                0 <= j < i ==> (#[trigger] trunk_models(v@)[j]).name != name@,
        decreases v@.len() - i,
    {
        if str_eq(v[i].name.as_str(), name) {
            proof {
                let m = trunk_models(v@);
                lemma_first_idx_tr(m, name@);
                let fi = first_idx_tr(m, name@);
                assert(m[i as int].name == name@);
                if fi < i {
                    assert(m[fi].name == name@);
                    assert(false);
                }
                if fi > i {
                    assert(m[i as int].name != name@);
                    assert(false);
                }
            }
            return Some(i);
        }
        proof {
            assert(trunk_models(v@)[i as int].name != name@);
        }
        i = i + 1;
    }
    proof {
        let m = trunk_models(v@);
        lemma_first_idx_tr(m, name@);
        let fi = first_idx_tr(m, name@);
        if fi < m.len() {
            assert(m[fi].name == name@);
            assert(false);
        }
    }
    None
}

impl Default for StackTree {
    /// An empty tree: no trunks, no active trunk, no legacy fields.
    fn default() -> (r: StackTree)
        ensures
            r@.active_trunk == Seq::<char>::empty(),
            r@.trunk_name is None,
            r@.branches is None,
            r@.trunks == Seq::<TrunkModel>::empty(),
    {
        let r = StackTree {
            active_trunk: String::new(),
            trunk_name: None,
            trunks: Vec::new(),
            branches: None,
        };
        proof {
            assert(r@.trunks =~= Seq::<TrunkModel>::empty());
        }
        r
    }
}

impl StackTree {
    /// Creates a tree whose sole trunk is `trunk_name`, which is active.
    /// The trunk name must be non-empty, so the active trunk's name is
    /// non-empty after construction.
    pub fn new(trunk_name: String) -> (r: StackTree)
        requires
            trunk_name@.len() > 0,
        ensures
            r@.wf(),
            r@.active_trunk == trunk_name@,
            r@.trunks == seq![TrunkModel { name: trunk_name@, branches: seq![root_model(trunk_name@)] }],
            r@.trunk_name is None,
            r@.branches is None,
    {
        let mut tree = StackTree::default();
        tree.add_trunk(trunk_name.clone());
        tree.active_trunk = trunk_name;
        proof {
            lemma_first_idx_tr(tree@.trunks, tree@.active_trunk);
            assert(tree@.trunks =~= seq![TrunkModel { name: tree.active_trunk@, branches: seq![root_model(tree.active_trunk@)] }]);
        }
        tree
    }

    /// Adds a trunk named `trunk_name` with a self-rooted entry; idempotent;
    /// does not change the active trunk.
    pub fn add_trunk(&mut self, trunk_name: String)
        ensures
            final(self)@ == old(self)@.spec_add_trunk(trunk_name@),
            old(self)@.wf() ==> final(self)@.wf(),
    {
        proof {
            if old(self)@.wf() {
                lemma_wf_add_trunk(old(self)@, trunk_name@);
            }
        }
        proof {
            lemma_first_idx_tr(old(self)@.trunks, trunk_name@);
        }
        let present = find_tr(&self.trunks, trunk_name.as_str()).is_some();
        if !present {
            let root = TrackedBranch::new(trunk_name.clone(), None, None);
            let mut branches: Vec<TrackedBranch> = Vec::new();
            branches.push(root);
            let tb = TrunkBranches { name: trunk_name, branches };
            proof {
                assert(tb@.branches =~= seq![root_model(tb.name@)]);
            }
            self.trunks.push(tb);
            proof {
                assert(self@.trunks =~= old(self)@.trunks.push(
                    TrunkModel { name: tb.name@, branches: seq![root_model(tb.name@)] },
                ));
                assert(self@ =~= old(self)@.spec_add_trunk(tb.name@));
            }
        }
    }

    /// Lists all trunk names, in the order the trunks were added.
    pub fn list_trunks(&self) -> (r: Vec<String>)
        ensures
            r@.len() == self@.trunks.len(),
            forall|i: int| 0 <= i < r@.len() ==> (#[trigger] r@[i])@ == self@.trunks[i].name,
    {
        let mut r: Vec<String> = Vec::new();
        let mut i: usize = 0;
        while i < self.trunks.len()
            invariant
                i <= self.trunks@.len(),
                r@.len() == i,
                forall|j: int| 0 <= j < i ==> (#[trigger] r@[j])@ == self@.trunks[j].name,
            decreases self.trunks@.len() - i,
        {
            r.push(self.trunks[i].name.clone());
            i = i + 1;
        }
        r
    }

    /// Switches the active trunk to `trunk_name`; fails with
    /// `BranchNotTracked` when no such trunk exists.
    pub fn switch_trunk(&mut self, trunk_name: &str) -> (r: StResult<()>)
        ensures
            old(self)@.has_trunk(trunk_name@) ==> r is Ok && final(self)@
                == old(self)@.with_active(trunk_name@),
            !old(self)@.has_trunk(trunk_name@) ==> final(self)@ == old(self)@ && (r matches Err(e)
                && e matches StError::BranchNotTracked(n) && n@ == trunk_name@),
            old(self)@.wf() && old(self)@.has_trunk(trunk_name@) ==> final(self)@.wf(),
    {
        if find_tr(&self.trunks, trunk_name).is_none() {
            return Err(StError::BranchNotTracked(trunk_name.to_owned()));
        }
        self.active_trunk = trunk_name.to_owned();
        proof {
            assert(self@ =~= old(self)@.with_active(trunk_name@));
        }
        Ok(())
    }

    /// Removes the trunk named `trunk_name` and all its branches; fails when
    /// `trunk_name` is the active trunk or absent.
    pub fn remove_trunk(&mut self, trunk_name: &str) -> (r: StResult<()>)
        ensures
            trunk_name@ == old(self)@.active_trunk ==> final(self)@ == old(self)@ && r is Err,
            trunk_name@ != old(self)@.active_trunk && !old(self)@.has_trunk(trunk_name@)
                ==> final(self)@ == old(self)@ && (r matches Err(e) && e matches
                StError::BranchNotTracked(n) && n@ == trunk_name@),
            trunk_name@ != old(self)@.active_trunk && old(self)@.has_trunk(trunk_name@) ==> r is Ok
                && final(self)@ == old(self)@.spec_remove_trunk(trunk_name@),
            old(self)@.wf() && r is Ok ==> final(self)@.wf(),
    {
        if str_eq(trunk_name, self.active_trunk.as_str()) {
            return Err(
                StError::BranchNotTracked(
                    "Cannot remove active trunk. Switch to another trunk first.".to_owned(),
                ),
            );
        }
        let found = find_tr(&self.trunks, trunk_name);
        match found {
            None => Err(StError::BranchNotTracked(trunk_name.to_owned())),
            Some(i) => {
                self.trunks.remove(i);
                proof {
                    assert(self@.trunks =~= old(self)@.trunks.remove(
                        first_idx_tr(old(self)@.trunks, trunk_name@),
                    ));
                    assert(self@ =~= old(self)@.spec_remove_trunk(trunk_name@));
                    if old(self)@.wf() {
                        lemma_wf_after_remove_trunk(old(self)@, trunk_name@);
                    }
                }
                Ok(())
            },
        }
    }

    /// The name of the active trunk.
    pub fn trunk_name(&self) -> (r: &str)
        ensures
            r@ == self@.active_trunk,
    {
        self.active_trunk.as_str()
    }

    /// Looks a branch up by name within the active trunk.
    pub fn get(&self, branch_name: &str) -> (r: Option<&TrackedBranch>)
        ensures
            match r {
                Some(b) => self@.spec_get(branch_name@) == Some(b@),
                None => self@.spec_get(branch_name@) is None,
            },
    {
        let at = find_tr(&self.trunks, self.active_trunk.as_str());
        match at {
            None => None,
            Some(ti) => {
                let bi = find_br(&self.trunks[ti].branches, branch_name);
                match bi {
                    None => None,
                    Some(i) => Some(&self.trunks[ti].branches[i]),
                }
            },
        }
    }

    /// Adds `branch_name` as a child of `parent_name`, with
    /// `parent_oid_cache` as the cached parent commit id. Fails with
    /// `BranchNotTracked` when the parent is not in the active trunk, and
    /// with `BranchAlreadyTracked` when `branch_name` already is.
    pub fn insert(
        &mut self,
        parent_name: &str,
        parent_oid_cache: &str,
        branch_name: &str,
    ) -> (r: StResult<()>)
        requires
            old(self)@.wf(),
        ensures
            !has_br(old(self)@.active(), parent_name@) ==> final(self)@ == old(self)@ && (r
                matches Err(e) && e matches StError::BranchNotTracked(n) && n@ == parent_name@),
            has_br(old(self)@.active(), parent_name@) && has_br(
                old(self)@.active(),
                branch_name@,
            ) ==> final(self)@ == old(self)@ && (r matches Err(e) && e matches
                StError::BranchAlreadyTracked(n) && n@ == branch_name@),
            old(self)@.insert_ok(parent_name@, branch_name@) ==> r is Ok && final(self)@ == old(
                self,
            )@.spec_insert(parent_name@, parent_oid_cache@, branch_name@),
            final(self)@.wf(),
    {
        proof {
            lemma_active_view(*old(self));
        }
        let ti = match find_tr(&self.trunks, self.active_trunk.as_str()) {
            Some(t) => t,
            None => {
                proof {
                    assert(false);
                }
                return Err(StError::BranchUnavailable);
            },
        };
        let pi = match find_br(&self.trunks[ti].branches, parent_name) {
            Some(p) => p,
            None => {
                return Err(StError::BranchNotTracked(parent_name.to_owned()));
            },
        };
        if find_br(&self.trunks[ti].branches, branch_name).is_some() {
            return Err(StError::BranchAlreadyTracked(branch_name.to_owned()));
        }
        let ghost m0 = self@;
        let ghost s0 = self@.active();
        let mut tb = self.trunks.remove(ti);
        let mut pb = tb.branches.remove(pi);
        pb.children.push(branch_name.to_owned());
        tb.branches.insert(pi, pb);
        let child = TrackedBranch::new(
            branch_name.to_owned(),
            Some(parent_name.to_owned()),
            Some(parent_oid_cache.to_owned()),
        );
        tb.branches.push(child);
        self.trunks.insert(ti, tb);
        proof {
            let s2 = spec_insert_branches(s0, parent_name@, parent_oid_cache@, branch_name@);
            let borig = old(self).trunks@[ti as int].branches@;
            assert(s0 =~= models(borig));
            assert(tb.branches@ =~= borig.update(pi as int, tb.branches@[pi as int]).push(
                tb.branches@[s0.len() as int - 0],
            )) by {
                assert(tb.branches@.len() == borig.len() + 1);
            }
            assert forall|k: int| 0 <= k < models(tb.branches@).len() implies models(
                tb.branches@,
            )[k] == s2[k] by {
                if k < s0.len() && k != pi {
                    assert(tb.branches@[k] == borig[k]);
                } else if k == pi {
                    assert(tb.branches@[k]@ =~= s2[k]);
                } else {
                    assert(tb.branches@[k]@ =~= s2[k]);
                }
            }
            assert(models(tb.branches@) =~= s2);
            assert(trunk_models(self.trunks@) =~= m0.with_active_branches(s2).trunks);
            assert(self@ =~= m0.spec_insert(parent_name@, parent_oid_cache@, branch_name@));
            lemma_wf_insert(s0, m0.trunks[m0.active_idx()].name, parent_name@,
                parent_oid_cache@, branch_name@);
            lemma_wf_with_active_branches(m0, s2);
        }
        Ok(())
    }

    /// Deletes `branch_name` from the active trunk, re-parenting its
    /// children onto its parent and updating the child lists on both sides.
    /// Fails with `BranchNotTracked` when the name is absent and with
    /// `CannotDeleteTrunkBranch` when it names the trunk entry itself.
    #[verifier::loop_isolation(false)]
    #[verifier::rlimit(100)]
    pub fn delete(&mut self, branch_name: &str) -> (r: StResult<TrackedBranch>)
        requires
            old(self)@.wf(),
        ensures
            !has_br(old(self)@.active(), branch_name@) ==> final(self)@ == old(self)@ && (r
                matches Err(e) && e matches StError::BranchNotTracked(n) && n@ == branch_name@),
            has_br(old(self)@.active(), branch_name@) && !old(self)@.delete_ok(branch_name@)
                ==> final(self)@ == old(self)@ && (r matches Err(e) && e is
                CannotDeleteTrunkBranch),
            old(self)@.delete_ok(branch_name@) ==> (r matches Ok(b) && b@ == old(
                self,
            )@.active()[first_idx_br(old(self)@.active(), branch_name@)] && final(self)@ == old(
                self,
            )@.spec_delete(branch_name@)),
            final(self)@.wf(),
    {
        proof {
            lemma_active_view(*old(self));
        }
        let ti = match find_tr(&self.trunks, self.active_trunk.as_str()) {
            Some(t) => t,
            None => {
                proof {
                    assert(false);
                }
                return Err(StError::BranchUnavailable);
            },
        };
        let bi = match find_br(&self.trunks[ti].branches, branch_name) {
            Some(b) => b,
            None => {
                return Err(StError::BranchNotTracked(branch_name.to_owned()));
            },
        };
        if self.trunks[ti].branches[bi].parent.is_none() {
            return Err(StError::CannotDeleteTrunkBranch);
        }
        let ghost m0 = self@;
        let ghost s0 = m0.active();
        let ghost nm = branch_name@;
        let ghost trunkname = m0.trunks[m0.active_idx()].name;
        proof {
            assert(wf_branches(s0, trunkname));
            lemma_first_idx_br(s0, nm);
            assert(s0[bi as int].parent is Some);
            assert(bi >= 1);
        }
        let mut tb = self.trunks.remove(ti);
        let branch = tb.branches.remove(bi);
        let parent_name = match &branch.parent {
            Some(p) => p.clone(),
            None => {
                proof {
                    assert(false);
                }
                return Err(StError::BranchUnavailable);
            },
        };
        let ghost pn = parent_name@;
        let ghost s1 = s0.remove(bi as int);
        let ghost kidsm = branch@.children;
        proof {
            assert(models(tb.branches@) =~= s1);
            // the parent's index in `s1` is its index in `s0`
            assert(pn == s0[bi as int].parent->0);
            assert(first_idx_br(s0, pn) < bi);
        }
        let ghost pp = first_idx_br(s0, pn);
        proof {
            lemma_first_idx_br(s0, pn);
            assert(s1[pp].name == pn);
            assert forall|j: int| 0 <= j < pp implies (#[trigger] s1[j]).name != pn by {
                assert(s1[j] == s0[j]);
            }
            lemma_first_idx_br_is(s1, pn, pp);
            // `s1` keeps unique names
            assert forall|i: int, j: int|
                0 <= i < j < s1.len() implies (#[trigger] s1[i]).name != (#[trigger] s1[j]).name by {
                let i0: int = if i < bi { i } else { i + 1 };
                let j0: int = if j < bi { j } else { j + 1 };
                assert(s1[i] == s0[i0]);
                assert(s1[j] == s0[j0]);
            }
            // every child of the deleted entry sits after it, is distinct
            // from the deleted name and from the parent, and survives
            assert forall|k: int| 0 <= k < kidsm.len() implies {
                let ci0 = first_idx_br(s0, #[trigger] kidsm[k]);
                &&& bi < ci0 < s0.len()
                &&& s0[ci0].parent == Some(nm)
                &&& kidsm[k] != nm
                &&& kidsm[k] != pn
                &&& s1[ci0 - 1].name == kidsm[k]
            } by {
                assert(child_entry_ok(s0, bi as int, k));
                let ci0 = first_idx_br(s0, kidsm[k]);
                lemma_first_idx_br(s0, kidsm[k]);
                assert(s0[ci0].parent == Some(nm));
                assert(first_idx_br(s0, s0[ci0].parent->0) < ci0);
                if kidsm[k] == nm {
                    assert(ci0 == bi);
                    assert(false);
                }
                if kidsm[k] == pn {
                    assert(ci0 == pp);
                    assert(false);
                }
                assert(s1[ci0 - 1] == s0[ci0]);
            }
        }
        let pi = match find_br(&tb.branches, parent_name.as_str()) {
            Some(p) => p,
            None => {
                proof {
                    assert(false);
                }
                return Err(StError::BranchUnavailable);
            },
        };
        proof {
            assert(pi == pp);
        }
        let mut pb = tb.branches.remove(pi);
        remove_child_name(&mut pb.children, branch_name);
        tb.branches.insert(pi, pb);
        proof {
            assert(models(tb.branches@) =~= reparented(s1, pi as int, nm, kidsm.take(0))) by {
                assert(kidsm.take(0) =~= Seq::<Seq<char>>::empty());
                assert(s1[pi as int].children.remove_value(nm) + kidsm.take(0) =~= s1[
                    pi as int].children.remove_value(nm));
            }
        }
        let kids = clone_names(&branch.children);
        proof {
            assert(kids@.len() == kidsm.len());
            assert(forall|i: int| 0 <= i < kidsm.len() ==> (#[trigger] kids@[i])@ == kidsm[i]);
        }
        let mut k: usize = 0;
        while k < kids.len()
            invariant
                k <= kids@.len(),
                tb.branches@.len() == s1.len(),
                tb.name@ == trunkname,
                models(tb.branches@) == reparented(s1, pi as int, nm, kidsm.take(k as int)),
            decreases kids@.len() - k,
        {
            let ghost cur = models(tb.branches@);
            let ghost kid = kidsm[k as int];
            let ghost ci0 = first_idx_br(s0, kid);
            proof {
                // the current list keeps the names of `s1`, so the child is
                // found at its `s1` position
                assert(forall|j: int| 0 <= j < s1.len() ==> (#[trigger] cur[j]).name == s1[j].name);
                assert(cur[ci0 - 1].name == kid);
                assert forall|j: int| 0 <= j < ci0 - 1 implies (#[trigger] cur[j]).name != kid by {
                    let j0: int = if j < bi { j } else { j + 1 };
                    assert(s1[j] == s0[j0]);
                    lemma_first_idx_br(s0, kid);
                }
                lemma_first_idx_br_is(cur, kid, ci0 - 1);
            }
            let ci = match find_br(&tb.branches, kids[k].as_str()) {
                Some(c) => c,
                None => {
                    proof {
                        assert(false);
                    }
                    return Err(StError::BranchUnavailable);
                },
            };
            proof {
                assert(ci == ci0 - 1);
                assert(ci != pi);
            }
            let mut cb = tb.branches.remove(ci);
            cb.parent = Some(parent_name.clone());
            tb.branches.insert(ci, cb);
            let ghost mid = models(tb.branches@);
            proof {
                assert(forall|j: int| 0 <= j < s1.len() && j != ci ==> (#[trigger] mid[j]) == cur[j]);
            }
            let mut pb2 = tb.branches.remove(pi);
            proof {
                assert(pb2@ == mid[pi as int]);
                assert(pb2@ == cur[pi as int]);
            }
            let ghost oldc = pb2@.children;
            pb2.children.push(kids[k].clone());
            proof {
                assert(pb2@.children =~= oldc.push(kid));
            }
            tb.branches.insert(pi, pb2);
            proof {
                let nxt = models(tb.branches@);
                let tgt = reparented(s1, pi as int, nm, kidsm.take(k as int + 1));
                assert(kidsm.take(k as int + 1) =~= kidsm.take(k as int).push(kid));
                assert forall|j: int| 0 <= j < s1.len() implies nxt[j] == tgt[j] by {
                    if j == pi {
                        assert(nxt[j] == pb2@);
                        assert(oldc == s1[pi as int].children.remove_value(nm) + kidsm.take(
                            k as int,
                        ));
                        assert(oldc.push(kid) =~= s1[pi as int].children.remove_value(nm)
                            + kidsm.take(k as int).push(kid));
                        assert(nxt[j].children =~= s1[pi as int].children.remove_value(nm)
                            + kidsm.take(k as int + 1));
                        assert(nxt[j] =~= tgt[j]);
                    } else if j == ci {
                        assert(kidsm.take(k as int + 1).contains(s1[j].name)) by {
                            assert(kidsm.take(k as int + 1)[k as int] == kid);
                        }
                        assert(nxt[j] =~= tgt[j]);
                    } else {
                        assert(nxt[j] == cur[j]);
                        assert(kidsm.take(k as int + 1).contains(s1[j].name) == kidsm.take(
                            k as int,
                        ).contains(s1[j].name)) by {
                            if kidsm.take(k as int + 1).contains(s1[j].name) && !kidsm.take(
                                k as int,
                            ).contains(s1[j].name) {
                                assert(s1[j].name == kid);
                                assert(s1[j].name == s1[ci0 - 1].name);
                                assert(false);
                            }
                            if kidsm.take(k as int).contains(s1[j].name) {
                                let w = choose|w: int|
                                    0 <= w < k && kidsm.take(k as int)[w] == s1[j].name;
                                assert(kidsm.take(k as int + 1)[w] == s1[j].name);
                            }
                        }
                        assert(nxt[j] =~= tgt[j]);
                    }
                }
                assert(nxt =~= tgt);
            }
            k = k + 1;
        }
        self.trunks.insert(ti, tb);
        proof {
            assert(kidsm.take(kidsm.len() as int) =~= kidsm);
            let sf = spec_delete_branches(s0, nm);
            assert(models(tb.branches@) == reparented(s1, pi as int, nm, kidsm));
            assert(sf == reparented(s1, pi as int, nm, kidsm));
            assert(trunk_models(self.trunks@) =~= m0.with_active_branches(sf).trunks);
            assert(self@ =~= m0.spec_delete(nm));
            lemma_wf_delete(s0, trunkname, nm);
            lemma_wf_with_active_branches(m0, sf);
        }
        Ok(branch)
    }

    /// Migrates the legacy single-trunk on-disk form into the multi-trunk
    /// form. When both legacy fields are present they become a trunk entry
    /// (replacing one of the same name), which is made active; the legacy
    /// fields are cleared in every case. Idempotent.
    pub fn migrate_if_needed(&mut self)
        ensures
            final(self)@ == old(self)@.spec_migrate(),
    {
        let tn_opt = self.trunk_name.take();
        let br_opt = self.branches.take();
        match (tn_opt, br_opt) {
            (Some(tn), Some(br)) => {
                let tb = TrunkBranches { name: tn.clone(), branches: br };
                let found = find_tr(&self.trunks, tn.as_str());
                match found {
                    Some(i) => {
                        self.trunks.remove(i);
                        self.trunks.insert(i, tb);
                        proof {
                            assert(trunk_models(self.trunks@) =~= old(self)@.spec_migrate().trunks);
                        }
                    },
                    None => {
                        self.trunks.push(tb);
                        proof {
                            assert(trunk_models(self.trunks@) =~= old(self)@.spec_migrate().trunks);
                        }
                    },
                }
                self.active_trunk = tn;
                proof {
                    assert(self@ =~= old(self)@.spec_migrate());
                }
            },
            _ => {
                proof {
                    assert(self@ =~= old(self)@.spec_migrate());
                }
            },
        }
    }

    /// The names of the active trunk's branches, the trunk first, every
    /// parent before its children. Fails with `BranchNotTracked` when the
    /// active trunk is absent.
    pub fn branches(&self) -> (r: StResult<Vec<String>>)
        ensures
            self@.has_trunk(self@.active_trunk) ==> (r matches Ok(v) && v@.len()
                == self@.active().len() && (forall|i: int|
                0 <= i < v@.len() ==> (#[trigger] v@[i])@ == self@.active()[i].name)),
            !self@.has_trunk(self@.active_trunk) ==> (r matches Err(e) && e matches
                StError::BranchNotTracked(n) && n@ == self@.active_trunk),
    {
        let ti = match find_tr(&self.trunks, self.active_trunk.as_str()) {
            Some(t) => t,
            None => {
                return Err(StError::BranchNotTracked(self.active_trunk.clone()));
            },
        };
        let mut names: Vec<String> = Vec::new();
        let mut i: usize = 0;
        let n = self.trunks[ti].branches.len();
        while i < n
            invariant
                i <= n,
                ti < self.trunks@.len(),
                n == self.trunks@[ti as int].branches@.len(),
                first_idx_tr(trunk_models(self.trunks@), self.active_trunk@) == ti,
                names@.len() == i,
                forall|j: int|
                    0 <= j < i ==> (#[trigger] names@[j])@ == models(
                        self.trunks@[ti as int].branches@,
                    )[j].name,
            decreases n - i,
        {
            names.push(self.trunks[ti].branches[i].name.clone());
            i = i + 1;
        }
        Ok(names)
    }

    /// Looks a branch up by name within the active trunk, mutably. The tree
    /// after the borrow ends is the tree with that entry replaced by
    /// whatever the caller made of it.
    pub fn get_mut(&mut self, branch_name: &str) -> (r: Option<&mut TrackedBranch>)
        requires
            old(self)@.wf(),
        ensures
            match r {
                Some(b) => {
                    &&& old(self)@.spec_get(branch_name@) == Some((*b)@)
                    &&& final(self)@ =~~= old(self)@.with_active_branches(
                        old(self)@.active().update(
                            first_idx_br(old(self)@.active(), branch_name@),
                            final(b)@,
                        ),
                    )
                },
                None => final(self)@ == old(self)@ && old(self)@.spec_get(branch_name@) is None,
            },
    {
        let at = find_tr(&self.trunks, self.active_trunk.as_str());
        match at {
            None => None,
            Some(ti) => {
                let bi = find_br(&self.trunks[ti].branches, branch_name);
                match bi {
                    None => None,
                    Some(i) => Some(&mut self.trunks[ti].branches[i]),
                }
            },
        }
    }
}

/// The view of the active trunk's branch vector is the model's active
/// branch list, and the active index agrees with `find_tr`.
pub proof fn lemma_active_view(t: StackTree)
    requires
        t@.has_trunk(t@.active_trunk),
    ensures
        0 <= t@.active_idx() < t.trunks@.len(),
        models(t.trunks@[t@.active_idx()].branches@) == t@.active(),
        t@.trunks[t@.active_idx()].name == t.trunks@[t@.active_idx()].name@,
{
    lemma_first_idx_tr(t@.trunks, t@.active_trunk);
}

/// Replacing the active trunk's branch list with a list that is well-formed
/// for that trunk preserves tree well-formedness.
pub proof fn lemma_wf_with_active_branches(m: TreeModel, s: Seq<BranchModel>)
    requires
        m.wf(),
        wf_branches(s, m.trunks[m.active_idx()].name),
    ensures
        m.with_active_branches(s).wf(),
{
    let m2 = m.with_active_branches(s);
    let ai = m.active_idx();
    lemma_first_idx_tr(m.trunks, m.active_trunk);
    assert(forall|i: int|
        0 <= i < m2.trunks.len() ==> (#[trigger] m2.trunks[i]).name == m.trunks[i].name);
    lemma_first_idx_tr_is(m2.trunks, m.active_trunk, ai);
    assert forall|i: int| 0 <= i < m2.trunks.len() implies (#[trigger] m2.trunks[i]).wf() by {
        if i != ai {
            assert(m2.trunks[i] == m.trunks[i]);
        }
    }
}

/// Inserting a fresh branch under a tracked parent preserves the
/// well-formedness of a trunk's branch list.
pub proof fn lemma_wf_insert(
    s: Seq<BranchModel>,
    trunk: Seq<char>,
    parent: Seq<char>,
    oid: Seq<char>,
    name: Seq<char>,
)
    requires
        wf_branches(s, trunk),
        has_br(s, parent),
        !has_br(s, name),
    ensures
        wf_branches(spec_insert_branches(s, parent, oid, name), trunk),
{
    let pi = first_idx_br(s, parent);
    lemma_first_idx_br(s, parent);
    lemma_first_idx_br(s, name);
    let s2 = spec_insert_branches(s, parent, oid, name);
    let n = s.len() as int;
    assert(s2.len() == n + 1);
    assert(forall|i: int| 0 <= i < n && i != pi ==> s2[i] == s[i]);
    assert(s2[pi].name == s[pi].name && s2[pi].parent == s[pi].parent && s2[pi].parent_oid_cache
        == s[pi].parent_oid_cache && s2[pi].children == s[pi].children.push(name));
    assert(forall|i: int| 0 <= i < n ==> (#[trigger] s2[i]).name == s[i].name);
    // names stay unique; the new entry's name is fresh
    assert forall|i: int, j: int| 0 <= i < j < s2.len() implies (#[trigger] s2[i]).name != (
    #[trigger] s2[j]).name by {
        if j == n {
            assert(s[i].name != name);
        }
    }
    // the first index of every name present in `s` is unchanged
    assert forall|x: Seq<char>| has_br(s, x) implies first_idx_br(s2, x) == first_idx_br(s, x)
        && has_br(s2, x) by {
        lemma_first_idx_br(s, x);
        lemma_first_idx_br_is(s2, x, first_idx_br(s, x));
    }
    lemma_first_idx_br_is(s2, name, n);
    // parent pointers still resolve to earlier entries
    assert forall|i: int| 1 <= i < s2.len() implies first_idx_br(
        s2,
        (#[trigger] s2[i]).parent->0,
    ) < i by {
        if i < n {
            assert(s2[i].parent == s[i].parent);
            assert(has_br(s, s[i].parent->0));
        } else {
            assert(s2[i].parent->0 == parent);
        }
    }
    // every entry is listed among its parent's children
    assert forall|i: int| 1 <= i < s2.len() implies (#[trigger] s2[first_idx_br(
        s2,
        s2[i].parent->0,
    )]).children.contains(s2[i].name) by {
        if i < n {
            let x = s[i].parent->0;
            let fp = first_idx_br(s, x);
            assert(s[fp].children.contains(s[i].name));
            lemma_first_idx_br(s, x);
            lemma_first_idx_br_is(s2, x, fp);
            assert(s2[i].parent == s[i].parent);
            if fp == pi {
                let k = choose|k: int|
                    0 <= k < s[pi].children.len() && s[pi].children[k] == s[i].name;
                assert(s2[pi].children[k] == s[i].name);
                assert(s2[pi].children.contains(s[i].name));
            } else {
                assert(s2[fp] == s[fp]);
            }
        } else {
            lemma_first_idx_br(s, parent);
            lemma_first_idx_br_is(s2, parent, pi);
            let k = s[pi].children.len() as int;
            assert(s2[pi].children[k] == name);
            assert(s2[pi].children.contains(name));
        }
    }
    // every child entry resolves and points back
    assert forall|i: int, k: int|
        0 <= i < s2.len() && 0 <= k < s2[i].children.len() implies #[trigger] child_entry_ok(
        s2,
        i,
        k,
    ) by {
        if i == n {
            assert(false);
        } else if i == pi && k == s[pi].children.len() {
            assert(s2[pi].children[k] == name);
            lemma_first_idx_br_is(s2, name, n);
            assert(s2[n].parent == Some(s2[pi].name));
        } else {
            let c = s[i].children[k];
            assert(child_entry_ok(s, i, k));
            let ci = first_idx_br(s, c);
            assert(has_br(s, c));
            lemma_first_idx_br(s, c);
            lemma_first_idx_br_is(s2, c, ci);
            assert(s2[i].children[k] == c);
            if ci == pi {
                assert(s2[ci].parent == s[ci].parent);
            } else {
                assert(s2[ci] == s[ci]);
            }
            assert(s2[ci].parent == Some(s2[i].name));
        }
    }
    // child lists stay duplicate-free
    assert forall|i: int, k: int, l: int|
        0 <= i < s2.len() && 0 <= k < l < s2[i].children.len() implies (#[trigger] s2[i].children[k])
        != (#[trigger] s2[i].children[l]) by {
        if i == pi && l == s[pi].children.len() {
            assert(child_entry_ok(s, pi, k));
            assert(s2[i].children[k] == s[pi].children[k]);
            assert(has_br(s, s[pi].children[k]));
        } else if i < n {
            assert(s2[i].children[k] == s[i].children[k]);
            assert(s2[i].children[l] == s[i].children[l]);
        } else {
            assert(false);
        }
    }
}

/// Removing a non-active trunk preserves well-formedness.
pub proof fn lemma_wf_after_remove_trunk(m: TreeModel, t: Seq<char>)
    requires
        m.wf(),
        t != m.active_trunk,
        m.has_trunk(t),
    ensures
        m.spec_remove_trunk(t).wf(),
{
    let ti = first_idx_tr(m.trunks, t);
    lemma_first_idx_tr(m.trunks, t);
    let m2 = m.spec_remove_trunk(t);
    lemma_first_idx_tr(m2.trunks, m2.active_trunk);
    lemma_first_idx_tr(m.trunks, m.active_trunk);
    let ai = first_idx_tr(m.trunks, m.active_trunk);
    assert(ai != ti);
    if ai < ti {
        assert(m2.trunks[ai] == m.trunks[ai]);
        assert(m2.has_trunk(m2.active_trunk)) by {
            if first_idx_tr(m2.trunks, m2.active_trunk) >= m2.trunks.len() {
                assert(m2.trunks[ai].name == m.active_trunk);
            }
        }
    } else {
        assert(m2.trunks[ai - 1] == m.trunks[ai]);
        assert(m2.has_trunk(m2.active_trunk)) by {
            if first_idx_tr(m2.trunks, m2.active_trunk) >= m2.trunks.len() {
                assert(m2.trunks[ai - 1].name == m.active_trunk);
            }
        }
    }
    assert forall|i: int| 0 <= i < m2.trunks.len() implies (#[trigger] m2.trunks[i]).wf() by {
        if i < ti {
            assert(m2.trunks[i] == m.trunks[i]);
        } else {
            assert(m2.trunks[i] == m.trunks[i + 1]);
        }
    }
    assert forall|i: int, j: int|
        0 <= i < j < m2.trunks.len() implies (#[trigger] m2.trunks[i]).name != (
    #[trigger] m2.trunks[j]).name by {
        let i0 = if i < ti {
            i
        } else {
            i + 1
        };
        let j0 = if j < ti {
            j
        } else {
            j + 1
        };
        assert(m2.trunks[i] == m.trunks[i0]);
        assert(m2.trunks[j] == m.trunks[j0]);
    }
}


/// Facts about striking the first occurrence of `name` from a
/// duplicate-free list of names.
pub proof fn lemma_remove_value_names(cs: Seq<Seq<char>>, name: Seq<char>)
    requires
        forall|k: int, l: int| 0 <= k < l < cs.len() ==> cs[k] != cs[l],
    ensures
        cs.remove_value(name).len() <= cs.len(),
        forall|k: int|
            0 <= k < cs.remove_value(name).len() ==> cs.contains(
                #[trigger] cs.remove_value(name)[k],
            ),
        forall|k: int| 0 <= k < cs.remove_value(name).len() ==> (#[trigger] cs.remove_value(
            name,
        )[k]) != name,
        forall|y: Seq<char>|
            cs.contains(y) && y != name ==> #[trigger] cs.remove_value(name).contains(y),
        forall|k: int, l: int|
            0 <= k < l < cs.remove_value(name).len() ==> cs.remove_value(name)[k]
                != cs.remove_value(name)[l],
{
    cs.index_of_first_ensures(name);
    let r = cs.remove_value(name);
    match cs.index_of_first(name) {
        Some(i) => {
            cs.remove_ensures(i);
            assert forall|k: int| 0 <= k < r.len() implies cs.contains(#[trigger] r[k]) && r[k]
                != name by {
                if k < i {
                    assert(r[k] == cs[k]);
                } else {
                    assert(r[k] == cs[k + 1]);
                }
            }
            assert forall|y: Seq<char>| cs.contains(y) && y != name implies #[trigger] r.contains(
                y,
            ) by {
                let w = choose|w: int| 0 <= w < cs.len() && cs[w] == y;
                assert(w != i);
                if w < i {
                    assert(r[w] == y);
                } else {
                    assert(r[w - 1] == y);
                }
            }
            assert forall|k: int, l: int| 0 <= k < l < r.len() implies r[k] != r[l] by {
                let k0: int = if k < i {
                    k
                } else {
                    k + 1
                };
                let l0: int = if l < i {
                    l
                } else {
                    l + 1
                };
                assert(r[k] == cs[k0]);
                assert(r[l] == cs[l0]);
            }
        },
        None => {
            assert(r == cs);
            assert forall|k: int| 0 <= k < r.len() implies cs.contains(#[trigger] r[k]) && r[k]
                != name by {
                if r[k] == name {
                    assert(cs.contains(name));
                    assert(false);
                }
            }
        },
    }
}

/// How the first index of a surviving name shifts when the entry at `bi` is
/// removed from a list with unique names.
pub proof fn lemma_idx_after_remove(s: Seq<BranchModel>, bi: int, x: Seq<char>)
    requires
        forall|i: int, j: int|
            0 <= i < j < s.len() ==> (#[trigger] s[i]).name != (#[trigger] s[j]).name,
        0 <= bi < s.len(),
        has_br(s, x),
        x != s[bi].name,
    ensures
        has_br(s.remove(bi), x),
        first_idx_br(s.remove(bi), x) == if first_idx_br(s, x) < bi {
            first_idx_br(s, x)
        } else {
            first_idx_br(s, x) - 1
        },
{
    let fx = first_idx_br(s, x);
    lemma_first_idx_br(s, x);
    let s1 = s.remove(bi);
    s.remove_ensures(bi);
    assert(fx != bi);
    let t: int = if fx < bi {
        fx
    } else {
        fx - 1
    };
    assert(s1[t].name == x);
    assert forall|j: int| 0 <= j < t implies (#[trigger] s1[j]).name != x by {
        if j < bi {
            assert(s1[j] == s[j]);
        } else {
            assert(s1[j] == s[j + 1]);
        }
    }
    lemma_first_idx_br_is(s1, x, t);
}


/// Deleting a tracked non-trunk branch preserves the well-formedness of a
/// trunk's branch list.
#[verifier::rlimit(100)]
pub proof fn lemma_wf_delete(s: Seq<BranchModel>, trunk: Seq<char>, name: Seq<char>)
    requires
        wf_branches(s, trunk),
        has_br(s, name),
        s[first_idx_br(s, name)].parent is Some,
    ensures
        wf_branches(spec_delete_branches(s, name), trunk),
{
    let bi = first_idx_br(s, name);
    lemma_first_idx_br(s, name);
    let b = s[bi];
    let pn = b.parent->0;
    let s1 = s.remove(bi);
    s.remove_ensures(bi);
    assert(bi >= 1);
    assert(first_idx_br(s, pn) < bi);
    let pp = first_idx_br(s, pn);
    lemma_first_idx_br(s, pn);
    assert(pn != name);
    lemma_idx_after_remove(s, bi, pn);
    let pi = first_idx_br(s1, pn);
    assert(pi == pp);
    let kids = b.children;
    let sf = reparented(s1, pi, name, kids);
    assert(spec_delete_branches(s, name) == sf);
    assert(sf.len() == s1.len());

    // pointwise names and fields of `s1`
    assert forall|j: int| 0 <= j < s1.len() implies #[trigger] s1[j] == s[if j < bi {
        j
    } else {
        j + 1
    }] by {}

    // unique names in `s1`
    assert forall|i: int, j: int|
        0 <= i < j < s1.len() implies (#[trigger] s1[i]).name != (#[trigger] s1[j]).name by {
        let i0: int = if i < bi {
            i
        } else {
            i + 1
        };
        let j0: int = if j < bi {
            j
        } else {
            j + 1
        };
        assert(s1[i] == s[i0]);
        assert(s1[j] == s[j0]);
    }

    // no entry of `s1` is named `name`
    assert forall|j: int| 0 <= j < s1.len() implies (#[trigger] s1[j]).name != name by {
        let j0: int = if j < bi {
            j
        } else {
            j + 1
        };
        assert(s1[j] == s[j0]);
        assert(j0 != bi);
    }

    // facts about each child of the deleted entry
    assert forall|k: int| 0 <= k < kids.len() implies {
        let ci0 = first_idx_br(s, #[trigger] kids[k]);
        &&& bi < ci0 < s.len()
        &&& s[ci0].parent == Some(name)
        &&& kids[k] != name
        &&& kids[k] != pn
        &&& s1[ci0 - 1].name == kids[k]
        &&& first_idx_br(s1, kids[k]) == ci0 - 1
    } by {
        assert(child_entry_ok(s, bi, k));
        let ci0 = first_idx_br(s, kids[k]);
        lemma_first_idx_br(s, kids[k]);
        assert(s[ci0].parent == Some(name));
        assert(first_idx_br(s, s[ci0].parent->0) < ci0);
        if kids[k] == name {
            assert(ci0 == bi);
            assert(false);
        }
        if kids[k] == pn {
            assert(ci0 == pp);
            assert(false);
        }
        lemma_idx_after_remove(s, bi, kids[k]);
        assert(s1[ci0 - 1] == s[ci0]);
    }

    // a name is a child of the deleted entry iff its entry's parent is the
    // deleted name
    assert forall|j: int| 0 <= j < s1.len() && s1[j].parent == Some(name) implies kids.contains(
        (#[trigger] s1[j]).name,
    ) by {
        let j0: int = if j < bi {
            j
        } else {
            j + 1
        };
        assert(s1[j] == s[j0]);
        assert(j0 >= 1);
        lemma_first_idx_br_is(s, name, bi);
        assert(s[first_idx_br(s, s[j0].parent->0)].children.contains(s[j0].name));
    }
    assert forall|j: int| 0 <= j < s1.len() && kids.contains((#[trigger] s1[j]).name) implies s1[
        j
    ].parent == Some(name) by {
        let k = choose|k: int| 0 <= k < kids.len() && kids[k] == s1[j].name;
        let ci0 = first_idx_br(s, kids[k]);
        assert(s1[ci0 - 1].name == kids[k]);
        assert(first_idx_br(s1, kids[k]) == ci0 - 1);
        if j != ci0 - 1 {
            assert(s1[j].name != s1[ci0 - 1].name);
            assert(false);
        }
        assert(s1[j] == s[ci0]);
    }

    // the names of `sf` are those of `s1`, and only the parent entry's
    // children changed
    assert forall|j: int| 0 <= j < sf.len() implies (#[trigger] sf[j]).name == s1[j].name && sf[
        j
    ].parent_oid_cache == s1[j].parent_oid_cache by {}
    assert forall|j: int| 0 <= j < sf.len() && j != pi implies (#[trigger] sf[j]).children == s1[
        j
    ].children by {}
    assert forall|x: Seq<char>| has_br(s1, x) implies first_idx_br(sf, x) == first_idx_br(
        s1,
        x,
    ) && has_br(sf, x) by {
        lemma_first_idx_br(s1, x);
        lemma_first_idx_br_is(sf, x, first_idx_br(s1, x));
    }

    let rv = s1[pi].children.remove_value(name);
    lemma_remove_value_names(s1[pi].children, name);
    assert(sf[pi].children == rv + kids);
    assert(s1[pi].children == s[pp].children);

    // the root entry
    assert(s1[0] == s[0]);
    if pi != 0 {
        if kids.contains(s1[0].name) {
            let k = choose|k: int| 0 <= k < kids.len() && kids[k] == s1[0].name;
            let ci0 = first_idx_br(s, kids[k]);
            assert(first_idx_br(s1, kids[k]) == ci0 - 1);
            lemma_first_idx_br_is(s1, s1[0].name, 0);
            assert(false);
        }
        assert(sf[0] == s1[0]);
    }
    assert(sf[0].name == trunk && sf[0].parent is None && sf[0].parent_oid_cache is None);

    // every non-root entry keeps a parent and a cache
    assert forall|j: int| 1 <= j < sf.len() implies (#[trigger] sf[j]).parent is Some && sf[
        j
    ].parent_oid_cache is Some by {
        let j0: int = if j < bi {
            j
        } else {
            j + 1
        };
        assert(s1[j] == s[j0]);
        assert(j0 >= 1);
    }

    // parents resolve to strictly earlier entries
    assert forall|j: int| 1 <= j < sf.len() implies first_idx_br(
        sf,
        (#[trigger] sf[j]).parent->0,
    ) < j by {
        let j0: int = if j < bi {
            j
        } else {
            j + 1
        };
        assert(s1[j] == s[j0]);
        if j != pi && kids.contains(s1[j].name) {
            assert(sf[j].parent == Some(pn));
            assert(first_idx_br(sf, pn) == pi);
            let k = choose|k: int| 0 <= k < kids.len() && kids[k] == s1[j].name;
            let ci0 = first_idx_br(s, kids[k]);
            assert(first_idx_br(s1, kids[k]) == ci0 - 1);
            if j != ci0 - 1 {
                assert(s1[j].name != s1[ci0 - 1].name);
                assert(false);
            }
            assert(pi < j);
        } else {
            assert(sf[j].parent == s1[j].parent);
            let x = s[j0].parent->0;
            assert(x != name) by {
                if x == name {
                    assert(s1[j].parent == Some(name));
                    assert(kids.contains(s1[j].name));
                    assert(j == pi);
                    assert(s[pp].parent == Some(name));
                    assert(first_idx_br(s, name) < pp);
                    assert(false);
                }
            }
            let fx = first_idx_br(s, x);
            assert(fx < j0);
            lemma_idx_after_remove(s, bi, x);
            assert(first_idx_br(sf, x) == first_idx_br(s1, x));
            if fx < bi {
                assert(first_idx_br(s1, x) == fx);
            } else {
                assert(first_idx_br(s1, x) == fx - 1);
            }
        }
    }

    // every non-root entry is listed among its parent's children
    assert forall|j: int| 1 <= j < sf.len() implies (#[trigger] sf[first_idx_br(
        sf,
        sf[j].parent->0,
    )]).children.contains(sf[j].name) by {
        let j0: int = if j < bi {
            j
        } else {
            j + 1
        };
        assert(s1[j] == s[j0]);
        if j != pi && kids.contains(s1[j].name) {
            assert(sf[j].parent == Some(pn));
            assert(first_idx_br(sf, pn) == pi);
            let k = choose|k: int| 0 <= k < kids.len() && kids[k] == s1[j].name;
            assert((rv + kids)[rv.len() + k] == s1[j].name);
            assert(sf[pi].children.contains(sf[j].name));
        } else {
            let x = s[j0].parent->0;
            assert(x != name) by {
                if x == name {
                    assert(kids.contains(s1[j].name));
                    assert(j == pi);
                    assert(s[pp].parent == Some(name));
                    assert(first_idx_br(s, name) < pp);
                    assert(false);
                }
            }
            let fx = first_idx_br(s, x);
            lemma_idx_after_remove(s, bi, x);
            let f1 = first_idx_br(s1, x);
            assert(first_idx_br(sf, x) == f1);
            assert(s[fx].children.contains(s[j0].name));
            if fx == pp {
                assert(f1 == pi);
                assert(s[j0].name != name) by {
                    assert(j0 != bi);
                }
                assert(rv.contains(s[j0].name));
                let w = choose|w: int| 0 <= w < rv.len() && rv[w] == s[j0].name;
                assert((rv + kids)[w] == s[j0].name);
                assert(sf[pi].children.contains(sf[j].name));
            } else {
                lemma_first_idx_br(s1, x);
                assert(f1 != pi) by {
                    if f1 == pi {
                        assert(s1[f1].name == x);
                        assert(s1[pi].name == pn);
                        assert(x == pn);
                        assert(fx == first_idx_br(s, pn));
                        assert(false);
                    }
                }
                assert(sf[f1].children == s1[f1].children);
                assert(s1[f1] == s[if f1 < bi {
                    f1
                } else {
                    f1 + 1
                }]);
                assert(s1[f1] == s[fx]) by {
                    if fx < bi {
                        assert(f1 == fx);
                    } else {
                        assert(f1 == fx - 1);
                    }
                }
                assert(sf[f1].children.contains(sf[j].name));
            }
        }
    }

    // every listed child resolves and points back
    assert forall|i: int, k2: int|
        0 <= i < sf.len() && 0 <= k2 < sf[i].children.len() implies #[trigger] child_entry_ok(
        sf,
        i,
        k2,
    ) by {
        let i0: int = if i < bi {
            i
        } else {
            i + 1
        };
        assert(s1[i] == s[i0]);
        if i == pi {
            if k2 < rv.len() {
                let c = rv[k2];
                assert(s[pp].children.contains(c) && c != name);
                let w = choose|w: int| 0 <= w < s[pp].children.len() && s[pp].children[w] == c;
                assert(child_entry_ok(s, pp, w));
                let fc = first_idx_br(s, c);
                lemma_first_idx_br(s, c);
                assert(s[fc].name == c);
                assert(fc != bi);
                assert(s[fc].parent == Some(pn));
                lemma_idx_after_remove(s, bi, c);
                let f1 = first_idx_br(s1, c);
                assert(has_br(s1, c));
                assert(first_idx_br(sf, c) == f1);
                lemma_first_idx_br(s1, c);
                assert(s1[f1].name == c);
                if fc < bi {
                    assert(f1 == fc);
                    assert(s1[f1] == s[fc]);
                } else {
                    assert(f1 == fc - 1);
                    assert(f1 >= bi);
                    assert(s1[f1] == s[f1 + 1]);
                    assert(s1[f1] == s[fc]);
                }
                assert(!kids.contains(c)) by {
                    if kids.contains(s1[f1].name) {
                        assert(s1[f1].parent == Some(name));
                        assert(pn == name);
                        assert(false);
                    }
                }
                assert(sf[f1].parent == s1[f1].parent);
                assert((rv + kids)[k2] == c);
                assert(sf[f1].parent == Some(sf[pi].name));
            } else {
                let c = kids[k2 - rv.len()];
                let ci0 = first_idx_br(s, c);
                assert(first_idx_br(s1, c) == ci0 - 1);
                assert(first_idx_br(sf, c) == ci0 - 1) by {
                    assert(has_br(s1, c));
                }
                assert(kids.contains(s1[ci0 - 1].name)) by {
                    assert(kids[k2 - rv.len()] == s1[ci0 - 1].name);
                }
                assert(ci0 - 1 != pi);
                assert(sf[ci0 - 1].parent == Some(pn));
                assert((rv + kids)[k2] == c);
                assert(sf[ci0 - 1].parent == Some(sf[pi].name));
            }
        } else {
            assert(sf[i].children == s1[i].children);
            let c = s1[i].children[k2];
            assert(child_entry_ok(s, i0, k2));
            let fc = first_idx_br(s, c);
            assert(s[fc].parent == Some(s[i0].name));
            assert(c != name) by {
                if c == name {
                    assert(fc == bi);
                    assert(s[bi].parent == Some(s[i0].name));
                    assert(s[i0].name == pn);
                    lemma_first_idx_br_is(s, pn, i0);
                    assert(i0 == pp);
                    assert(i == pi);
                    assert(false);
                }
            }
            lemma_idx_after_remove(s, bi, c);
            let f1 = first_idx_br(s1, c);
            assert(has_br(s1, c));
            assert(first_idx_br(sf, c) == f1);
            lemma_first_idx_br(s1, c);
            if fc < bi {
                assert(f1 == fc);
                assert(s1[f1] == s[fc]);
            } else {
                assert(f1 == fc - 1);
                assert(f1 >= bi);
                assert(s1[f1] == s[f1 + 1]);
                assert(s1[f1] == s[fc]);
            }
            assert(!kids.contains(s1[f1].name)) by {
                if kids.contains(s1[f1].name) {
                    assert(s1[f1].parent == Some(name));
                    assert(s[i0].name == name);
                    assert(i0 != bi);
                    assert(false);
                }
            }
            if f1 == pi {
                assert(sf[f1].parent == s1[f1].parent);
            } else {
                assert(sf[f1].parent == s1[f1].parent);
            }
            assert(sf[f1].parent == Some(sf[i].name));
        }
    }

    // child lists stay duplicate-free
    assert forall|i: int, k2: int, l2: int|
        0 <= i < sf.len() && 0 <= k2 < l2 < sf[i].children.len() implies (
        #[trigger] sf[i].children[k2]) != (#[trigger] sf[i].children[l2]) by {
        let i0: int = if i < bi {
            i
        } else {
            i + 1
        };
        if i == pi {
            if l2 < rv.len() {
                assert((rv + kids)[k2] == rv[k2]);
                assert((rv + kids)[l2] == rv[l2]);
            } else if k2 >= rv.len() {
                assert((rv + kids)[k2] == kids[k2 - rv.len()]);
                assert((rv + kids)[l2] == kids[l2 - rv.len()]);
            } else {
                let c = rv[k2];
                let d = kids[l2 - rv.len()];
                assert((rv + kids)[k2] == c);
                assert((rv + kids)[l2] == d);
                if c == d {
                    assert(s[pp].children.contains(c) && c != name);
                    let w = choose|w: int|
                        0 <= w < s[pp].children.len() && s[pp].children[w] == c;
                    assert(child_entry_ok(s, pp, w));
                    let fc = first_idx_br(s, c);
                    assert(s[fc].parent == Some(pn));
                    let ci0 = first_idx_br(s, d);
                    assert(s[ci0].parent == Some(name));
                    assert(fc == ci0);
                    assert(pn == name);
                    assert(false);
                }
            }
        } else {
            assert(sf[i].children == s1[i].children);
            assert(s1[i] == s[i0]);
        }
    }

    assert(wf_branches(sf, trunk));
}


/// The names of a branch list, in order.
pub open spec fn branch_names(s: Seq<BranchModel>) -> Seq<Seq<char>> {
    s.map_values(|b: BranchModel| b.name)
}

/// Law: inserting a fresh leaf under a tracked parent and then deleting that
/// leaf restores the tree exactly.
pub proof fn lemma_insert_delete_roundtrip(
    m: TreeModel,
    parent: Seq<char>,
    oid: Seq<char>,
    name: Seq<char>,
)
    requires
        m.wf(),
        m.insert_ok(parent, name),
    ensures
        m.spec_insert(parent, oid, name).spec_delete(name) =~~= m,
{
    let s = m.active();
    let ai = m.active_idx();
    lemma_first_idx_tr(m.trunks, m.active_trunk);
    let pi = first_idx_br(s, parent);
    lemma_first_idx_br(s, parent);
    lemma_first_idx_br(s, name);
    let n = s.len() as int;
    let s2 = spec_insert_branches(s, parent, oid, name);
    let m1 = m.spec_insert(parent, oid, name);
    assert(forall|i: int| 0 <= i < m1.trunks.len() ==> (#[trigger] m1.trunks[i]).name
        == m.trunks[i].name);
    lemma_first_idx_tr_is(m1.trunks, m.active_trunk, ai);
    assert(m1.active() == s2);
    // the fresh entry is the last one
    assert(forall|i: int| 0 <= i < n ==> (#[trigger] s2[i]).name == s[i].name);
    assert forall|i: int| 0 <= i < n implies (#[trigger] s2[i]).name != name by {
        lemma_first_idx_br(s, name);
    }
    lemma_first_idx_br_is(s2, name, n);
    let b = s2[n];
    assert(b.parent->0 == parent);
    let s1 = s2.remove(n);
    s2.remove_ensures(n);
    assert(s1.len() == n);
    assert forall|i: int| 0 <= i < n implies #[trigger] s1[i] == s2[i] by {}
    lemma_first_idx_br_is(s1, parent, pi);
    // striking `name` from the parent's grown child list restores it
    let grown = s[pi].children.push(name);
    assert(s1[pi].children == grown);
    grown.index_of_first_ensures(name);
    assert(!s[pi].children.contains(name)) by {
        if s[pi].children.contains(name) {
            let w = choose|w: int| 0 <= w < s[pi].children.len() && s[pi].children[w] == name;
            assert(child_entry_ok(s, pi, w));
            assert(has_br(s, name));
            assert(false);
        }
    }
    assert(grown.index_of_first(name) == Some(s[pi].children.len() as int)) by {
        match grown.index_of_first(name) {
            Some(w) => {
                if w < s[pi].children.len() {
                    assert(grown[w] == s[pi].children[w]);
                    assert(s[pi].children.contains(name));
                    assert(false);
                }
            },
            None => {
                assert(grown.contains(name)) by {
                    assert(grown[s[pi].children.len() as int] == name);
                }
                assert(false);
            },
        }
    }
    assert(grown.remove_value(name) =~= s[pi].children);
    // the deleted entry has no children, so nothing is re-parented
    assert(b.children == Seq::<Seq<char>>::empty());
    let sf = spec_delete_branches(s2, name);
    assert forall|j: int| 0 <= j < n implies #[trigger] sf[j] =~= s[j] by {
        assert(!b.children.contains(s1[j].name));
        if j == pi {
            assert(sf[j].children =~= s[pi].children);
        }
    }
    assert(sf =~~= s);
    let m2 = m1.spec_delete(name);
    assert(m2.trunks =~~= m.trunks) by {
        assert forall|i: int| 0 <= i < m.trunks.len() implies m2.trunks[i] =~~= m.trunks[i] by {
            if i == ai {
                assert(m2.trunks[i].branches =~~= m.trunks[i].branches);
            }
        }
    }
    assert(m2 =~~= m);
}

/// Law: deleting a tracked non-trunk branch strikes exactly its entry from
/// the linearization; the remaining names keep their order.
pub proof fn lemma_delete_names(m: TreeModel, name: Seq<char>)
    requires
        m.wf(),
        m.delete_ok(name),
    ensures
        branch_names(m.spec_delete(name).active()) =~= branch_names(m.active()).remove(
            first_idx_br(m.active(), name),
        ),
{
    let s = m.active();
    let ai = m.active_idx();
    lemma_first_idx_tr(m.trunks, m.active_trunk);
    let bi = first_idx_br(s, name);
    lemma_first_idx_br(s, name);
    let md = m.spec_delete(name);
    assert(forall|i: int| 0 <= i < md.trunks.len() ==> (#[trigger] md.trunks[i]).name
        == m.trunks[i].name);
    lemma_first_idx_tr_is(md.trunks, m.active_trunk, ai);
    let sf = md.active();
    assert(sf == spec_delete_branches(s, name));
    let s1 = s.remove(bi);
    s.remove_ensures(bi);
    assert forall|j: int| 0 <= j < sf.len() implies #[trigger] branch_names(sf)[j]
        == branch_names(s).remove(bi)[j] by {
        assert(sf[j].name == s1[j].name);
        if j < bi {
            assert(s1[j] == s[j]);
        } else {
            assert(s1[j] == s[j + 1]);
        }
    }
}

/// Law: the linearization of a well-formed tree lists the trunk first,
/// contains no duplicates, enumerates exactly the tracked names (which, by
/// closure and acyclicity, are exactly the names reachable from the trunk),
/// and places every parent before its children.
pub proof fn lemma_branch_order(m: TreeModel)
    requires
        m.wf(),
    ensures
        branch_names(m.active()).len() == m.active().len() >= 1,
        branch_names(m.active())[0] == m.active_trunk,
        forall|i: int, j: int|
            0 <= i < j < m.active().len() ==> branch_names(m.active())[i] != branch_names(
                m.active(),
            )[j],
        forall|x: Seq<char>| #[trigger] branch_names(m.active()).contains(x) <==> has_br(m.active(), x),
        forall|i: int|
            1 <= i < m.active().len() ==> first_idx_br(
                m.active(),
                (#[trigger] m.active()[i]).parent->0,
            ) < i,
{
    let s = m.active();
    lemma_first_idx_tr(m.trunks, m.active_trunk);
    assert(s == m.trunks[m.active_idx()].branches);
    assert(s[0].name == m.active_trunk);
    assert forall|x: Seq<char>| #[trigger] branch_names(s).contains(x) <==> has_br(s, x) by {
        lemma_first_idx_br(s, x);
        if branch_names(s).contains(x) {
            let w = choose|w: int| 0 <= w < s.len() && branch_names(s)[w] == x;
            if first_idx_br(s, x) >= s.len() {
                assert(s[w].name != x);
                assert(false);
            }
        }
        if has_br(s, x) {
            assert(branch_names(s)[first_idx_br(s, x)] == x);
        }
    }
}


/// Law: migration is idempotent — migrating an already-migrated tree
/// changes nothing.
pub proof fn lemma_migrate_idempotent(m: TreeModel)
    ensures
        m.spec_migrate().spec_migrate() =~~= m.spec_migrate(),
{
}

/// Migrating a legacy pair whose branch list is well-formed for its trunk
/// yields a well-formed tree, provided the existing trunks are themselves
/// well-formed with unique names.
pub proof fn lemma_wf_migrate(m: TreeModel)
    requires
        m.trunk_name is Some,
        m.branches is Some,
        wf_branches(m.branches->0, m.trunk_name->0),
        forall|i: int, j: int|
            0 <= i < j < m.trunks.len() ==> (#[trigger] m.trunks[i]).name != (
            #[trigger] m.trunks[j]).name,
        forall|i: int| 0 <= i < m.trunks.len() ==> (#[trigger] m.trunks[i]).wf(),
    ensures
        m.spec_migrate().wf(),
{
    let t = m.trunk_name->0;
    let m2 = m.spec_migrate();
    lemma_first_idx_tr(m.trunks, t);
    let ti = first_idx_tr(m.trunks, t);
    if m.has_trunk(t) {
        assert(forall|i: int| 0 <= i < m2.trunks.len() ==> (#[trigger] m2.trunks[i]).name
            == m.trunks[i].name);
        lemma_first_idx_tr_is(m2.trunks, t, ti);
        assert forall|i: int| 0 <= i < m2.trunks.len() implies (#[trigger] m2.trunks[i]).wf() by {
            if i != ti {
                assert(m2.trunks[i] == m.trunks[i]);
            }
        }
    } else {
        let n = m.trunks.len() as int;
        lemma_first_idx_tr_is(m2.trunks, t, n);
        assert forall|i: int, j: int|
            0 <= i < j < m2.trunks.len() implies (#[trigger] m2.trunks[i]).name != (
        #[trigger] m2.trunks[j]).name by {
            if j == n {
                assert(m.trunks[i].name != t);
            }
        }
        assert forall|i: int| 0 <= i < m2.trunks.len() implies (#[trigger] m2.trunks[i]).wf() by {
            if i < n {
                assert(m2.trunks[i] == m.trunks[i]);
            }
        }
    }
}


/// Updating one entry in place — keeping its name, parent, and children, and
/// keeping a cache on non-trunk entries and none on the trunk — preserves the
/// well-formedness of a trunk's branch list.
pub proof fn lemma_wf_update_entry(s: Seq<BranchModel>, trunk: Seq<char>, i: int, e: BranchModel)
    requires
        wf_branches(s, trunk),
        0 <= i < s.len(),
        e.name == s[i].name,
        e.parent == s[i].parent,
        e.children == s[i].children,
        i >= 1 ==> e.parent_oid_cache is Some,
        i == 0 ==> e.parent_oid_cache is None,
    ensures
        wf_branches(s.update(i, e), trunk),
{
    let s2 = s.update(i, e);
    assert(forall|j: int| 0 <= j < s2.len() ==> (#[trigger] s2[j]).name == s[j].name);
    assert(forall|j: int| 0 <= j < s2.len() ==> (#[trigger] s2[j]).parent == s[j].parent);
    assert(forall|j: int| 0 <= j < s2.len() ==> (#[trigger] s2[j]).children == s[j].children);
    assert forall|x: Seq<char>| has_br(s, x) implies first_idx_br(s2, x) == first_idx_br(s, x)
        && has_br(s2, x) by {
        lemma_first_idx_br(s, x);
        lemma_first_idx_br_is(s2, x, first_idx_br(s, x));
    }
    assert forall|j: int| 1 <= j < s2.len() implies first_idx_br(
        s2,
        (#[trigger] s2[j]).parent->0,
    ) < j && s2[first_idx_br(s2, s2[j].parent->0)].children.contains(s2[j].name) by {
        let x = s[j].parent->0;
        assert(has_br(s, x));
        lemma_first_idx_br(s, x);
        lemma_first_idx_br_is(s2, x, first_idx_br(s, x));
        let fp = first_idx_br(s, x);
        assert(s2[j].parent->0 == x);
        assert(fp < j);
        assert(s[fp].children.contains(s[j].name));
        assert(s2[fp].children == s[fp].children);
        assert(s2[j].name == s[j].name);
        assert(s2[fp].children.contains(s2[j].name));
    }
    assert forall|j: int, k: int|
        0 <= j < s2.len() && 0 <= k < s2[j].children.len() implies #[trigger] child_entry_ok(
        s2,
        j,
        k,
    ) by {
        assert(child_entry_ok(s, j, k));
        let c = s[j].children[k];
        assert(s2[j].children == s[j].children);
        assert(s2[j].children[k] == c);
        assert(has_br(s, c));
        lemma_first_idx_br(s, c);
        lemma_first_idx_br_is(s2, c, first_idx_br(s, c));
        let fc = first_idx_br(s, c);
        assert(0 <= fc < s2.len());
        assert(s2[fc].parent == s[fc].parent);
        assert(s2[fc].parent == Some(s2[j].name));
    }
}


/// In a list with unique names, every entry is the first with its name.
pub proof fn lemma_aligned(s: Seq<BranchModel>, t: int)
    requires
        forall|i: int, j: int|
            0 <= i < j < s.len() ==> (#[trigger] s[i]).name != (#[trigger] s[j]).name,
        0 <= t < s.len(),
    ensures
        first_idx_br(s, s[t].name) == t,
        has_br(s, s[t].name),
{
    lemma_first_idx_br_is(s, s[t].name, t);
}


/// The active branch list of a well-formed tree is well-formed for the
/// active trunk's name, which is the name of its root entry.
pub proof fn lemma_active_wf(m: TreeModel)
    requires
        m.wf(),
    ensures
        wf_branches(m.active(), m.trunks[m.active_idx()].name),
        m.trunks[m.active_idx()].name == m.active_trunk,
        m.active()[0].name == m.active_trunk,
        m.active().len() >= 1,
{
    lemma_first_idx_tr(m.trunks, m.active_trunk);
    assert(m.trunks[m.active_idx()].wf());
}

/// A single self-rooted entry is a well-formed branch list for its trunk.
pub proof fn lemma_wf_singleton_root(t: Seq<char>)
    ensures
        wf_branches(seq![root_model(t)], t),
{
    let s = seq![root_model(t)];
    assert(s.len() == 1);
    assert(s[0] == root_model(t));
    assert forall|i: int, k: int|
        0 <= i < s.len() && 0 <= k < s[i].children.len() implies #[trigger] child_entry_ok(
        s,
        i,
        k,
    ) by {
        assert(false);
    }
}

/// Adding a trunk preserves well-formedness.
pub proof fn lemma_wf_add_trunk(m: TreeModel, t: Seq<char>)
    requires
        m.wf(),
    ensures
        m.spec_add_trunk(t).wf(),
{
    if !m.has_trunk(t) {
        lemma_first_idx_tr(m.trunks, t);
        let m2 = m.spec_add_trunk(t);
        let n = m.trunks.len() as int;
        lemma_first_idx_tr(m.trunks, m.active_trunk);
        lemma_first_idx_tr_is(
            m2.trunks,
            m.active_trunk,
            first_idx_tr(m.trunks, m.active_trunk),
        );
        assert forall|i: int, j: int|
            0 <= i < j < m2.trunks.len() implies (#[trigger] m2.trunks[i]).name != (
        #[trigger] m2.trunks[j]).name by {
            if j == n {
                assert(m.trunks[i].name != t);
            }
        }
        assert forall|i: int| 0 <= i < m2.trunks.len() implies (#[trigger] m2.trunks[i]).wf() by {
            if i == n {
                lemma_wf_singleton_root(t);
            } else {
                assert(m2.trunks[i] == m.trunks[i]);
            }
        }
    }
}

} // verus!
