//! Derived queries over the stack tree: discovery of the stack around the
//! current branch, and the cleanliness check that guards restack and submit.
//!
//! The repository itself is out of scope here; its answers — the current
//! branch, the head commit id of each branch, whether the working copy is
//! dirty — enter as plain values ([`HeadMap`], `bool`), so every decision
//! taken on them is verified.

use vstd::prelude::*;
use crate::errors::{StError, StResult};
use crate::strutil::str_eq;
use crate::tree::{find_br, first_idx_br, has_br, models, BranchModel, StackTree, TrackedBranch};

verus! {

/// A branch name together with its current head commit id.
#[derive(Debug, Clone, PartialEq, Eq)]
pub struct BranchHead {
    /// The branch name.
    pub name: String,
    /// The branch's current head commit id, as a raw id string.
    pub oid: String,
}

/// The mathematical model of one head entry.
#[verifier::ext_equal]
pub ghost struct HeadModel {
    pub name: Seq<char>,
    pub oid: Seq<char>,
}

impl View for BranchHead {
    type V = HeadModel;

    open spec fn view(&self) -> HeadModel {
        HeadModel { name: self.name@, oid: self.oid@ }
    }
}

/// A snapshot of branch heads, as reported by the repository: a list of
/// (branch, commit id) entries, looked up by first match.
#[derive(Debug, Clone, PartialEq, Eq)]
pub struct HeadMap {
    /// The entries, in the order they were recorded.
    pub heads: Vec<BranchHead>,
}

/// The head recorded for `name`, if any (first match).
pub open spec fn head_of(hs: Seq<HeadModel>, name: Seq<char>) -> Option<Seq<char>>
    decreases hs.len(),
{
    if hs.len() == 0 {
        None
    } else if hs[0].name == name {
        Some(hs[0].oid)
    } else {
        head_of(hs.drop_first(), name)
    }
}

/// When `hs[i]` is the first entry for `name`, `head_of` returns its oid.
pub proof fn lemma_head_of_at(hs: Seq<HeadModel>, name: Seq<char>, i: int)
    requires
        0 <= i < hs.len(),
        hs[i].name == name,
        forall|j: int| 0 <= j < i ==> (#[trigger] hs[j]).name != name,
    ensures
        head_of(hs, name) == Some(hs[i].oid),
    decreases hs.len(),
{
    if i == 0 {
    } else {
        assert forall|j: int| 0 <= j < i - 1 implies (#[trigger] hs.drop_first()[j]).name
            != name by {
            assert(hs.drop_first()[j] == hs[j + 1]);
        }
        assert(hs.drop_first()[i - 1] == hs[i]);
        lemma_head_of_at(hs.drop_first(), name, i - 1);
    }
}

/// When no entry is recorded for `name`, `head_of` returns `None`.
pub proof fn lemma_head_of_none(hs: Seq<HeadModel>, name: Seq<char>)
    requires
        forall|j: int| 0 <= j < hs.len() ==> (#[trigger] hs[j]).name != name,
    ensures
        head_of(hs, name) is None,
    decreases hs.len(),
{
    if hs.len() > 0 {
        assert forall|j: int| 0 <= j < hs.drop_first().len() implies (
        #[trigger] hs.drop_first()[j]).name != name by {
            assert(hs.drop_first()[j] == hs[j + 1]);
        }
        lemma_head_of_none(hs.drop_first(), name);
    }
}


/// Shadowing: a fresh entry at the front answers for its own name and
/// leaves every other lookup unchanged.
pub proof fn lemma_head_of_shadow(hs: Seq<HeadModel>, e: HeadModel, x: Seq<char>)
    ensures
        head_of(seq![e] + hs, x) == if x == e.name {
            Some(e.oid)
        } else {
            head_of(hs, x)
        },
{
    let full = seq![e] + hs;
    assert(full[0] == e);
    assert(full.drop_first() =~= hs);
}

impl View for HeadMap {
    type V = Seq<HeadModel>;

    open spec fn view(&self) -> Seq<HeadModel> {
        self.heads@.map_values(|h: BranchHead| h@)
    }
}

impl HeadMap {
    /// An empty snapshot.
    pub fn new() -> (r: HeadMap)
        ensures
            r@ == Seq::<HeadModel>::empty(),
    {
        let r = HeadMap { heads: Vec::new() };
        proof {
            assert(r@ =~= Seq::<HeadModel>::empty());
        }
        r
    }

    /// Records the head `oid` for `name`.
    pub fn push(&mut self, name: String, oid: String)
        ensures
            final(self)@ == old(self)@.push(HeadModel { name: name@, oid: oid@ }),
    {
        let ghost before = self@;
        self.heads.push(BranchHead { name, oid });
        proof {
            assert(self@ =~= before.push(self.heads@.last()@));
        }
    }


    /// Records a new head for `name`, shadowing any earlier entry.
    pub fn set(&mut self, name: String, oid: String)
        ensures
            final(self)@ == seq![HeadModel { name: name@, oid: oid@ }] + old(self)@,
    {
        let ghost before = self@;
        self.heads.insert(0, BranchHead { name, oid });
        proof {
            assert(self@ =~= seq![self.heads@[0]@] + before);
        }
    }

    /// Looks the recorded head of `name` up.
    pub fn get(&self, name: &str) -> (r: Option<&String>)
        ensures
            match r {
                Some(o) => head_of(self@, name@) == Some(o@),
                None => head_of(self@, name@) is None,
            },
    {
        let mut i: usize = 0;
        while i < self.heads.len()
            invariant
                i <= self.heads@.len(),
                forall|j: int| 0 <= j < i ==> (#[trigger] self@[j]).name != name@,
            decreases self.heads@.len() - i,
        {
            if str_eq(self.heads[i].name.as_str(), name) {
                proof {
                    assert(self@[i as int].name == name@);
                    lemma_head_of_at(self@, name@, i as int);
                }
                return Some(&self.heads[i].oid);
            }
            proof {
                assert(self@[i as int].name != name@);
            }
            i = i + 1;
        }
        proof {
            lemma_head_of_none(self@, name@);
        }
        None
    }
}

/// Whether the branch named `name` is stale: it is tracked in the active
/// trunk, is not the trunk entry, and its cached parent commit id differs
/// from the parent's head as recorded in `hs` (a missing head counts as
/// differing).
pub open spec fn spec_stale(
    m: crate::tree::TreeModel,
    hs: Seq<HeadModel>,
    name: Seq<char>,
) -> bool {
    match m.spec_get(name) {
        Some(b) => match b.parent {
            Some(p) => head_of(hs, p) != b.parent_oid_cache,
            None => false,
        },
        None => false,
    }
}

/// The index of the first stale name in `names`, or `names.len()` if none
/// is stale.
pub open spec fn first_stale(
    m: crate::tree::TreeModel,
    hs: Seq<HeadModel>,
    names: Seq<Seq<char>>,
) -> int
    decreases names.len(),
{
    if names.len() == 0 {
        0
    } else if spec_stale(m, hs, names[0]) {
        0
    } else {
        1 + first_stale(m, hs, names.drop_first())
    }
}

pub proof fn lemma_first_stale(
    m: crate::tree::TreeModel,
    hs: Seq<HeadModel>,
    names: Seq<Seq<char>>,
)
    ensures
        0 <= first_stale(m, hs, names) <= names.len(),
        first_stale(m, hs, names) < names.len() ==> spec_stale(
            m,
            hs,
            names[first_stale(m, hs, names)],
        ),
        forall|j: int| 0 <= j < first_stale(m, hs, names) ==> !spec_stale(m, hs, names[j]),
    decreases names.len(),
{
    if names.len() == 0 {
    } else if spec_stale(m, hs, names[0]) {
    } else {
        lemma_first_stale(m, hs, names.drop_first());
        assert forall|j: int| 0 <= j < first_stale(m, hs, names) implies !spec_stale(
            m,
            hs,
            names[j],
        ) by {
            if j > 0 {
                assert(names.drop_first()[j - 1] == names[j]);
            }
        }
    }
}

/// The names of a list of stack entries, in order.
pub open spec fn name_views(ns: Seq<String>) -> Seq<Seq<char>> {
    ns.map_values(|n: String| n@)
}


/// The chain of names from the trunk down to the entry at index `i`,
/// following parent pointers (which, in a well-formed list, always lead to
/// strictly earlier entries).
pub open spec fn chain_to(s: Seq<BranchModel>, i: int) -> Seq<Seq<char>>
    decreases i,
{
    if 0 <= i < s.len() {
        match s[i].parent {
            None => seq![s[i].name],
            Some(p) => {
                let pi = first_idx_br(s, p);
                if 0 <= pi < i {
                    chain_to(s, pi).push(s[i].name)
                } else {
                    seq![s[i].name]
                }
            },
        }
    } else {
        Seq::empty()
    }
}

/// Whether the entry at index `j` lies in the subtree rooted at index `i`:
/// following parent pointers from `j` (always to strictly earlier entries)
/// reaches `i`.
pub open spec fn in_subtree(s: Seq<BranchModel>, i: int, j: int) -> bool
    decreases j,
{
    if j == i {
        true
    } else if 0 <= j < s.len() {
        match s[j].parent {
            None => false,
            Some(p) => {
                let pj = first_idx_br(s, p);
                &&& 0 <= pj < j
                &&& in_subtree(s, i, pj)
            },
        }
    } else {
        false
    }
}

/// The names of the first `n` entries that lie strictly below index `i` in
/// its subtree, in list order.
pub open spec fn subtree_upto(s: Seq<BranchModel>, i: int, n: int) -> Seq<Seq<char>>
    decreases n,
{
    if n <= 0 {
        Seq::empty()
    } else {
        let rest = subtree_upto(s, i, n - 1);
        if n - 1 != i && in_subtree(s, i, n - 1) {
            rest.push(s[n - 1].name)
        } else {
            rest
        }
    }
}

/// The stack that covers the branch named `current`: the chain from the
/// trunk down to it, then its whole subtree, parents before children
/// (meaningful when `current` is tracked in the active trunk). When
/// `current` is the trunk itself this is the full branch list.
pub open spec fn spec_discover(m: crate::tree::TreeModel, current: Seq<char>) -> Seq<Seq<char>> {
    let s = m.active();
    let ci = first_idx_br(s, current);
    chain_to(s, ci) + subtree_upto(s, ci, s.len() as int)
}

/// The chain of names from the trunk down to the entry at index `i`,
/// as an executable walk mirroring [`chain_to`].
fn chain_names(v: &Vec<TrackedBranch>, i: usize) -> (r: Vec<String>)
    requires
        i < v@.len(),
    ensures
        name_views(r@) == chain_to(models(v@), i as int),
    decreases i,
{
    let b = &v[i];
    match &b.parent {
        None => {
            let mut r: Vec<String> = Vec::new();
            r.push(b.name.clone());
            proof {
                assert(name_views(r@) =~= chain_to(models(v@), i as int));
            }
            r
        },
        Some(p) => {
            let found = find_br(v, p.as_str());
            match found {
                Some(pi) => {
                    if pi < i {
                        let mut r = chain_names(v, pi);
                        r.push(b.name.clone());
                        proof {
                            assert(name_views(r@) =~= chain_to(models(v@), i as int));
                        }
                        r
                    } else {
                        let mut r: Vec<String> = Vec::new();
                        r.push(b.name.clone());
                        proof {
                            assert(name_views(r@) =~= chain_to(models(v@), i as int));
                        }
                        r
                    }
                },
                None => {
                    let mut r: Vec<String> = Vec::new();
                    r.push(b.name.clone());
                    proof {
                        assert(name_views(r@) =~= chain_to(models(v@), i as int));
                    }
                    r
                },
            }
        },
    }
}

impl StackTree {
    /// Checks that the working copy is clean and that no branch of `stack`
    /// is stale. Fails with `WorkingTreeDirty` when `dirty` holds, else with
    /// `NeedsRestack` naming the first stale branch, else succeeds.
    pub fn check_cleanliness(&self, stack: &Vec<String>, heads: &HeadMap, dirty: bool) -> (r:
        StResult<()>)
        ensures
            dirty ==> (r matches Err(e) && e is WorkingTreeDirty),
            !dirty && first_stale(self@, heads@, name_views(stack@)) < stack@.len() ==> (r matches
                Err(e) && e matches StError::NeedsRestack(n) && n@ == name_views(stack@)[first_stale(
                self@,
                heads@,
                name_views(stack@),
            )]),
            !dirty && first_stale(self@, heads@, name_views(stack@)) >= stack@.len() ==> r is Ok,
    {
        if dirty {
            return Err(StError::WorkingTreeDirty);
        }
        let ghost nv = name_views(stack@);
        let mut i: usize = 0;
        while i < stack.len()
            invariant
                !dirty,
                i <= stack@.len(),
                nv == name_views(stack@),
                forall|j: int| 0 <= j < i ==> !spec_stale(self@, heads@, nv[j]),
            decreases stack@.len() - i,
        {
            let name = &stack[i];
            let stale: bool = match self.get(name.as_str()) {
                None => false,
                Some(b) => match &b.parent {
                    None => false,
                    Some(p) => {
                        let head = heads.get(p.as_str());
                        match (&b.parent_oid_cache, head) {
                            (Some(c), Some(h)) => !str_eq(c.as_str(), h.as_str()),
                            (Some(_), None) => true,
                            (None, Some(_)) => true,
                            (None, None) => false,
                        }
                    },
                },
            };
            proof {
                assert(stale == spec_stale(self@, heads@, nv[i as int]));
            }
            if stale {
                proof {
                    lemma_first_stale(self@, heads@, nv);
                    let fs = first_stale(self@, heads@, nv);
                    if fs < i {
                        assert(!spec_stale(self@, heads@, nv[fs]));
                        assert(false);
                    }
                    if fs > i {
                        assert(!spec_stale(self@, heads@, nv[i as int]));
                        assert(false);
                    }
                }
                return Err(StError::NeedsRestack(name.clone()));
            }
            i = i + 1;
        }
        proof {
            lemma_first_stale(self@, heads@, nv);
            let fs = first_stale(self@, heads@, nv);
            if fs < stack@.len() {
                assert(!spec_stale(self@, heads@, nv[fs]));
                assert(false);
            }
        }
        Ok(())
    }

    /// Returns the stack covering the branch named `current`: the trunk and
    /// the chain from it down to `current`, then the subtree rooted at
    /// `current`, parents always before children. When `current` is the
    /// trunk, this is the whole active trunk. Fails with `BranchNotTracked`
    /// when `current` is not tracked in the active trunk.
    pub fn discover_stack(&self, current: &str) -> (r: StResult<Vec<String>>)
        ensures
            !has_br(self@.active(), current@) ==> (r matches Err(e) && e matches
                StError::BranchNotTracked(n) && n@ == current@),
            has_br(self@.active(), current@) ==> (r matches Ok(v) && name_views(v@)
                == spec_discover(self@, current@)),
    {
        proof {
            crate::tree::lemma_first_idx_tr(self@.trunks, self@.active_trunk);
        }
        let ti = match crate::tree::find_tr(&self.trunks, self.active_trunk.as_str()) {
            Some(t) => t,
            None => {
                return Err(StError::BranchNotTracked(current.to_owned()));
            },
        };
        let ghost s = self@.active();
        let v = &self.trunks[ti].branches;
        proof {
            assert(models(v@) == s);
        }
        let ci = match find_br(v, current) {
            Some(c) => c,
            None => {
                return Err(StError::BranchNotTracked(current.to_owned()));
            },
        };
        let n = v.len();
        let mut marks: Vec<bool> = Vec::new();
        let mut j: usize = 0;
        while j < n
            invariant
                j <= n,
                n == v@.len(),
                ci < n,
                models(v@) == s,
                marks@.len() == j,
                forall|t: int| 0 <= t < j ==> marks@[t] == in_subtree(s, ci as int, t),
            decreases n - j,
        {
            let m: bool = if j == ci {
                true
            } else {
                match &v[j].parent {
                    None => false,
                    Some(p) => {
                        let found = find_br(v, p.as_str());
                        match found {
                            Some(pj) => {
                                if pj < j {
                                    marks[pj]
                                } else {
                                    false
                                }
                            },
                            None => false,
                        }
                    },
                }
            };
            proof {
                assert(m == in_subtree(s, ci as int, j as int));
            }
            marks.push(m);
            j = j + 1;
        }
        let mut out = chain_names(v, ci);
        let ghost chain = chain_to(s, ci as int);
        proof {
            assert(name_views(out@) == chain);
            assert(name_views(out@) =~= chain + subtree_upto(s, ci as int, 0));
        }
        let mut j: usize = 0;
        while j < n
            invariant
                j <= n,
                n == v@.len(),
                ci < n,
                models(v@) == s,
                marks@.len() == n,
                forall|t: int| 0 <= t < n ==> marks@[t] == in_subtree(s, ci as int, t),
                name_views(out@) == chain + subtree_upto(s, ci as int, j as int),
            decreases n - j,
        {
            if marks[j] && j != ci {
                let ghost pre = name_views(out@);
                out.push(v[j].name.clone());
                proof {
                    assert(in_subtree(s, ci as int, j as int));
                    assert(subtree_upto(s, ci as int, j as int + 1) == subtree_upto(
                        s,
                        ci as int,
                        j as int,
                    ).push(s[j as int].name));
                    assert(name_views(out@) =~= pre.push(s[j as int].name));
                    assert(pre.push(s[j as int].name) =~= chain + subtree_upto(
                        s,
                        ci as int,
                        j as int + 1,
                    ));
                }
            } else {
                proof {
                    assert(name_views(out@) =~= chain + subtree_upto(s, ci as int, j as int + 1));
                }
            }
            j = j + 1;
        }
        Ok(out)
    }

    /// Applies the pruning decision for one branch whose pull request was
    /// reported closed or merged: when the report says closed and the user
    /// confirmed, the branch is deleted from the tree; otherwise nothing
    /// changes. Returns whether a deletion happened.
    pub fn prune_branch(&mut self, name: &str, pr_closed: bool, confirmed: bool) -> (r: StResult<
        bool,
    >)
        requires
            old(self)@.wf(),
            pr_closed && confirmed ==> old(self)@.delete_ok(name@),
        ensures
            final(self)@.wf(),
            pr_closed && confirmed ==> (r matches Ok(d) && d && final(self)@ == old(
                self,
            )@.spec_delete(name@)),
            !(pr_closed && confirmed) ==> (r matches Ok(d) && !d && final(self)@ == old(self)@),
    {
        if pr_closed && confirmed {
            match self.delete(name) {
                Ok(_) => Ok(true),
                Err(e) => {
                    proof {
                        assert(false);
                    }
                    Err(e)
                },
            }
        } else {
            Ok(false)
        }
    }
}

} // verus!
