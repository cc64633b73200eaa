//! The restack engine: detects tracked branches whose cached parent commit
//! id no longer matches the parent's head, and asks for the rebases that
//! bring them up to date, strictly parent-before-child.
//!
//! The engine is driven step by step. The caller obtains a
//! [`RebaseRequest`], performs the rebase in the repository, and reports the
//! branch's new head with [`Restacker::rebased`]; the engine updates the
//! cache and its head snapshot and moves on. The cached old parent id is the
//! pivot handed to the rebase (`upstream`), so the branch's own commits are
//! replayed even after the parent's history was rewritten.

use vstd::prelude::*;
use crate::ctx::{head_of, lemma_head_of_shadow, name_views, spec_stale, HeadMap, HeadModel};
use crate::errors::{StError, StResult};
use crate::strutil::str_eq;
use crate::tree::{branch_names, first_idx_br, lemma_aligned, lemma_first_idx_tr,
    lemma_wf_update_entry, lemma_wf_with_active_branches, BranchModel, StackTree, TreeModel};

verus! {

/// A rebase the engine asks the repository to perform: replay the commits
/// of `branch` that are not reachable from `upstream` onto `onto`.
#[derive(Debug, Clone, PartialEq, Eq)]
pub struct RebaseRequest {
    /// The branch to rebase.
    pub branch: String,
    /// The pivot: the branch's cached old parent commit id.
    pub upstream: String,
    /// The new base: the parent's current head commit id.
    pub onto: String,
}

/// Every non-trunk branch of the active trunk has a head recorded for its
/// parent.
pub open spec fn covered(m: TreeModel, hs: Seq<HeadModel>) -> bool {
    forall|t: int|
        1 <= t < m.active().len() ==> head_of(hs, (#[trigger] m.active()[t]).parent->0) is Some
}

/// Every non-trunk branch of the active trunk has its cached parent commit
/// id equal to its parent's recorded head.
pub open spec fn settled(m: TreeModel, hs: Seq<HeadModel>) -> bool {
    forall|t: int|
        1 <= t < m.active().len() ==> (#[trigger] m.active()[t]).parent_oid_cache == head_of(
            hs,
            m.active()[t].parent->0,
        )
}

/// The position of the first stale branch at or after position `i` in the
/// active trunk, or the trunk's length if none is stale.
pub open spec fn next_stale(m: TreeModel, hs: Seq<HeadModel>, i: int) -> int
    decreases m.active().len() - i,
{
    if i < 0 || i >= m.active().len() {
        m.active().len() as int
    } else if spec_stale(m, hs, m.active()[i].name) {
        i
    } else {
        next_stale(m, hs, i + 1)
    }
}

pub proof fn lemma_next_stale(m: TreeModel, hs: Seq<HeadModel>, i: int)
    requires
        0 <= i <= m.active().len(),
    ensures
        i <= next_stale(m, hs, i) <= m.active().len(),
        next_stale(m, hs, i) < m.active().len() ==> spec_stale(
            m,
            hs,
            m.active()[next_stale(m, hs, i)].name,
        ),
        forall|j: int| i <= j < next_stale(m, hs, i) ==> !spec_stale(m, hs, m.active()[j].name),
    decreases m.active().len() - i,
{
    if i < m.active().len() && !spec_stale(m, hs, m.active()[i].name) {
        lemma_next_stale(m, hs, i + 1);
    }
}

/// The restack engine's state: the tree being restacked, the linearization
/// of its active trunk, the position of the next branch to examine, the
/// current head snapshot, and whether any rebase happened in this run.
pub struct Restacker {
    /// The tree whose caches are being brought up to date.
    pub tree: StackTree,
    /// The branch names of the active trunk, parents before children.
    pub order: Vec<String>,
    /// The position of the next branch to examine (position 0 is the trunk).
    pub idx: usize,
    /// The current heads: the repository's answers, updated after each
    /// reported rebase.
    pub heads: HeadMap,
    /// Whether this run performed any rebase.
    pub rebased_any: bool,
}

impl Restacker {
    /// The engine's invariant: the tree is well-formed, `order` is its
    /// active trunk's linearization, every parent's head is known, and every
    /// branch before `idx` is already up to date.
    pub open spec fn inv(self) -> bool {
        &&& self.tree@.wf()
        &&& name_views(self.order@) == branch_names(self.tree@.active())
        &&& 1 <= self.idx <= self.order@.len()
        &&& covered(self.tree@, self.heads@)
        &&& forall|t: int|
            1 <= t < self.idx ==> !spec_stale(
                self.tree@,
                self.heads@,
                (#[trigger] self.tree@.active()[t]).name,
            )
    }

    /// Starts a restack run over the active trunk of `tree`, with `heads`
    /// the repository's current head for every tracked branch. Fails with
    /// `BranchUnavailable` when some branch's parent has no recorded head.
    pub fn new(tree: StackTree, heads: HeadMap) -> (r: StResult<Restacker>)
        requires
            tree@.wf(),
        ensures
            covered(tree@, heads@) ==> (r matches Ok(e) && e.inv() && e.tree@ == tree@ && e.heads@
                == heads@ && e.idx == 1 && !e.rebased_any),
            !covered(tree@, heads@) ==> (r matches Err(e) && e is BranchUnavailable),
    {
        let ghost m = tree@;
        let ghost s = m.active();
        proof {
            lemma_first_idx_tr(m.trunks, m.active_trunk);
        }
        let order = match tree.branches() {
            Ok(o) => o,
            Err(_) => {
                proof {
                    assert(false);
                }
                return Err(StError::BranchUnavailable);
            },
        };
        proof {
            assert(name_views(order@) =~= branch_names(s));
        }
        let mut t: usize = 1;
        while t < order.len()
            invariant
                tree@ == m,
                1 <= t <= order@.len(),
                name_views(order@) == branch_names(s),
                s == m.active(),
                m.wf(),
                forall|u: int|
                    1 <= u < t ==> head_of(heads@, (#[trigger] s[u]).parent->0) is Some,
            decreases order@.len() - t,
        {
            proof {
                crate::tree::lemma_active_wf(m);
                assert(name_views(order@).len() == order@.len());
                assert(branch_names(s).len() == s.len());
                lemma_aligned(s, t as int);
                assert(name_views(order@)[t as int] == order@[t as int]@);
                assert(branch_names(s)[t as int] == s[t as int].name);
                assert(order@[t as int]@ == s[t as int].name);
                assert(m.spec_get(s[t as int].name) == Some(s[t as int]));
            }
            let b = match tree.get(order[t].as_str()) {
                Some(b) => b,
                None => {
                    proof {
                        assert(false);
                    }
                    return Err(StError::BranchUnavailable);
                },
            };
            let p = match &b.parent {
                Some(p) => p,
                None => {
                    proof {
                        assert(false);
                    }
                    return Err(StError::BranchUnavailable);
                },
            };
            if heads.get(p.as_str()).is_none() {
                proof {
                    assert(head_of(heads@, s[t as int].parent->0) is None);
                }
                return Err(StError::BranchUnavailable);
            }
            t = t + 1;
        }
        Ok(Restacker { tree, order, idx: 1, heads, rebased_any: false })
    }

    /// Advances past up-to-date branches. Returns `Ok(None)` when every
    /// branch is current, the rebase to perform next otherwise, and fails
    /// with `MissingParentOidCache` on a stale branch without a cache.
    #[verifier::loop_isolation(false)]
    pub fn step(&mut self) -> (r: StResult<Option<RebaseRequest>>)
        requires
            old(self).inv(),
        ensures
            final(self).inv(),
            final(self).tree@ == old(self).tree@,
            final(self).heads@ == old(self).heads@,
            final(self).order@ == old(self).order@,
            final(self).rebased_any == old(self).rebased_any,
            ({
                let m = old(self).tree@;
                let hs = old(self).heads@;
                let s = m.active();
                let ns = next_stale(m, hs, old(self).idx as int);
                &&& (ns >= s.len() ==> (r matches Ok(q) && q is None) && final(self).idx
                    == s.len())
                &&& (ns < s.len() && s[ns].parent_oid_cache is None ==> (r matches Err(e) && e is
                    MissingParentOidCache) && final(self).idx == ns)
                &&& (ns < s.len() && s[ns].parent_oid_cache is Some ==> (r matches Ok(q) && q
                    matches Some(req) && req.branch@ == s[ns].name && Some(req.upstream@) == s[
                    ns
                ].parent_oid_cache && Some(req.onto@) == head_of(hs, s[ns].parent->0)
                    && final(self).idx == ns))
            }),
    {
        let ghost m = self.tree@;
        let ghost hs = self.heads@;
        let ghost s = m.active();
        let ghost start = self.idx as int;
        while self.idx < self.order.len()
            invariant
                self.tree@ == m,
                self.heads@ == hs,
                self.order@ == old(self).order@,
                self.rebased_any == old(self).rebased_any,
                s == m.active(),
                self.inv(),
                start <= self.idx,
                next_stale(m, hs, start) == next_stale(m, hs, self.idx as int),
            decreases self.order@.len() - self.idx,
        {
            let i = self.idx;
            proof {
                crate::tree::lemma_active_wf(m);
                assert(name_views(self.order@).len() == self.order@.len());
                assert(branch_names(s).len() == s.len());
                lemma_aligned(s, i as int);
                assert(name_views(self.order@)[i as int] == self.order@[i as int]@);
                assert(branch_names(s)[i as int] == s[i as int].name);
                assert(self.order@[i as int]@ == s[i as int].name);
                assert(m.spec_get(s[i as int].name) == Some(s[i as int]));
            }
            let b = match self.tree.get(self.order[i].as_str()) {
                Some(b) => b,
                None => {
                    proof {
                        assert(false);
                    }
                    return Err(StError::BranchUnavailable);
                },
            };
            let p = match &b.parent {
                Some(p) => p,
                None => {
                    proof {
                        assert(false);
                    }
                    return Err(StError::BranchUnavailable);
                },
            };
            let h = match self.heads.get(p.as_str()) {
                Some(h) => h,
                None => {
                    proof {
                        assert(false);
                    }
                    return Err(StError::BranchUnavailable);
                },
            };
            match &b.parent_oid_cache {
                None => {
                    proof {
                        assert(spec_stale(m, hs, s[i as int].name));
                        assert(next_stale(m, hs, i as int) == i);
                    }
                    return Err(StError::MissingParentOidCache);
                },
                Some(c) => {
                    if str_eq(c.as_str(), h.as_str()) {
                        proof {
                            assert(!spec_stale(m, hs, s[i as int].name));
                            assert(next_stale(m, hs, i as int) == next_stale(m, hs, i as int + 1));
                        }
                        self.idx = i + 1;
                    } else {
                        proof {
                            assert(spec_stale(m, hs, s[i as int].name));
                            assert(next_stale(m, hs, i as int) == i);
                        }
                        return Ok(
                            Some(
                                RebaseRequest {
                                    branch: self.order[i].clone(),
                                    upstream: c.clone(),
                                    onto: h.clone(),
                                },
                            ),
                        );
                    }
                },
            }
        }
        proof {
            assert(name_views(self.order@).len() == self.order@.len());
            assert(branch_names(s).len() == s.len());
            assert(self.idx >= s.len());
            assert(next_stale(m, hs, self.idx as int) == s.len());
        }
        Ok(None)
    }

    /// Reports that the rebase requested for the branch at the current
    /// position succeeded and that the branch's head is now `new_head`. The
    /// branch's cache becomes its parent's recorded head, the head snapshot
    /// learns the branch's new head, and the engine moves to the next
    /// branch.
    pub fn rebased(&mut self, new_head: String)
        requires
            old(self).inv(),
            old(self).idx < old(self).order@.len(),
            spec_stale(
                old(self).tree@,
                old(self).heads@,
                old(self).tree@.active()[old(self).idx as int].name,
            ),
        ensures
            final(self).inv(),
            final(self).idx == old(self).idx + 1,
            final(self).rebased_any,
            final(self).order@ == old(self).order@,
            ({
                let m = old(self).tree@;
                let s = m.active();
                let i = old(self).idx as int;
                &&& final(self).tree@ =~~= m.with_active_branches(
                    s.update(
                        i,
                        BranchModel {
                            parent_oid_cache: head_of(old(self).heads@, s[i].parent->0),
                            ..s[i]
                        },
                    ),
                )
                &&& final(self).heads@ == seq![
                    HeadModel { name: s[i].name, oid: new_head@ },
                ] + old(self).heads@
            }),
    {
        let ghost m = self.tree@;
        let ghost hs = self.heads@;
        let ghost s = m.active();
        let i = self.idx;
        let n = self.order.len();
        proof {
            assert(i < n);
            crate::tree::lemma_active_wf(m);
                assert(name_views(self.order@).len() == self.order@.len());
                assert(branch_names(s).len() == s.len());
            lemma_aligned(s, i as int);
            crate::tree::lemma_first_idx_tr(m.trunks, m.active_trunk);
            assert(name_views(self.order@)[i as int] == self.order@[i as int]@);
            assert(branch_names(s)[i as int] == s[i as int].name);
            assert(self.order@[i as int]@ == s[i as int].name);
            assert(m.spec_get(s[i as int].name) == Some(s[i as int]));
        }
        let name = self.order[i].clone();
        let parent: String = match self.tree.get(name.as_str()) {
            Some(b) => match &b.parent {
                Some(p) => p.clone(),
                None => {
                    proof {
                        assert(false);
                    }
                    String::new()
                },
            },
            None => {
                proof {
                    assert(false);
                }
                String::new()
            },
        };
        let onto: String = match self.heads.get(parent.as_str()) {
            Some(h) => h.clone(),
            None => {
                proof {
                    assert(false);
                }
                String::new()
            },
        };
        match self.tree.get_mut(name.as_str()) {
            Some(b) => {
                b.parent_oid_cache = Some(onto);
            },
            None => {
                proof {
                    assert(false);
                }
            },
        }
        proof {
            let e = BranchModel {
                parent_oid_cache: head_of(hs, s[i as int].parent->0),
                ..s[i as int]
            };
            assert(self.tree@.active() =~= s.update(i as int, e)) by {
                assert(forall|j: int|
                    0 <= j < self.tree@.trunks.len() ==> (#[trigger] self.tree@.trunks[j]).name
                        == m.trunks[j].name);
                crate::tree::lemma_first_idx_tr_is(self.tree@.trunks, m.active_trunk, m.active_idx());
            }
            lemma_wf_update_entry(s, m.trunks[m.active_idx()].name, i as int, e);
            lemma_wf_with_active_branches(m, s.update(i as int, e));
            assert(self.tree@ =~~= m.with_active_branches(s.update(i as int, e)));
            assert(self.tree@.wf()) by {
                assert(m.with_active_branches(s.update(i as int, e)).wf());
            }
        }
        let ghost m2 = self.tree@;
        self.heads.set(name, new_head);
        self.idx = i + 1;
        self.rebased_any = true;
        proof {
            crate::tree::lemma_active_wf(m);
            let s2 = m2.active();
            assert(s2 == s.update(i as int, BranchModel {
                parent_oid_cache: head_of(hs, s[i as int].parent->0),
                ..s[i as int]
            }));
            assert(name_views(self.order@) =~= branch_names(s2));
            // heads gained a shadowing entry for the rebased branch's name;
            // the parents of the branches examined so far bear other names,
            // so their recorded heads are unchanged
            assert forall|t: int| 1 <= t <= i implies head_of(
                self.heads@,
                (#[trigger] s2[t]).parent->0,
            ) == head_of(hs, s2[t].parent->0) by {
                lemma_head_of_shadow(hs, HeadModel { name: s[i as int].name, oid: new_head@ },
                    s2[t].parent->0);
                assert(s2[t].parent == s[t].parent);
                if s2[t].parent->0 == s[i as int].name {
                    let fp = first_idx_br(s, s[t].parent->0);
                    assert(fp < t);
                    lemma_aligned(s, i as int);
                    assert(fp == i);
                    assert(false);
                }
            }
            assert forall|t: int| 1 <= t < self.idx implies !spec_stale(
                self.tree@,
                self.heads@,
                (#[trigger] self.tree@.active()[t]).name,
            ) by {
                lemma_aligned(s2, t);
                assert(self.tree@.spec_get(s2[t].name) == Some(s2[t]));
                assert(head_of(self.heads@, s2[t].parent->0) == head_of(hs, s2[t].parent->0));
                if t < i {
                    assert(s2[t] == s[t]);
                    assert(!spec_stale(m, hs, s[t].name));
                    lemma_aligned(s, t);
                    assert(m.spec_get(s[t].name) == Some(s[t]));
                } else {
                    assert(t == i);
                    assert(s2[t].parent_oid_cache == head_of(hs, s[i as int].parent->0));
                }
            }
            assert(covered(self.tree@, self.heads@)) by {
                assert forall|t: int| 1 <= t < s2.len() implies head_of(
                    self.heads@,
                    (#[trigger] s2[t]).parent->0,
                ) is Some by {
                    lemma_head_of_shadow(hs, HeadModel { name: s[i as int].name, oid: new_head@ },
                        s2[t].parent->0);
                    assert(s2[t].parent == s[t].parent);
                    if s2[t].parent->0 != s[i as int].name {
                        assert(head_of(hs, s[t].parent->0) is Some);
                    }
                }
            }
        }
    }

    /// Ends the run, handing back the tree and whether any rebase happened.
    pub fn finish(self) -> (r: (StackTree, bool))
        ensures
            r.0@ == self.tree@,
            r.1 == self.rebased_any,
    {
        (self.tree, self.rebased_any)
    }
}

/// Law: when the engine reports completion, every non-trunk branch of the
/// active trunk has its cached parent commit id equal to its parent's
/// current head.
pub proof fn lemma_restack_complete(e: Restacker)
    requires
        e.inv(),
        e.idx == e.order@.len(),
    ensures
        settled(e.tree@, e.heads@),
{
    let m = e.tree@;
    let s = m.active();
    crate::tree::lemma_active_wf(m);
    assert(name_views(e.order@).len() == e.order@.len());
    assert(branch_names(s).len() == s.len());
    assert forall|t: int| 1 <= t < s.len() implies (#[trigger] s[t]).parent_oid_cache == head_of(
        e.heads@,
        s[t].parent->0,
    ) by {
        assert(!spec_stale(m, e.heads@, s[t].name));
        lemma_aligned(s, t);
        assert(m.spec_get(s[t].name) == Some(s[t]));
    }
}

/// Law: restack is idempotent — on a settled tree nothing is stale, so a
/// fresh run finds no rebase to perform.
pub proof fn lemma_restack_idempotent(m: TreeModel, hs: Seq<HeadModel>)
    requires
        m.wf(),
        settled(m, hs),
    ensures
        next_stale(m, hs, 1) == m.active().len(),
{
    let s = m.active();
    crate::tree::lemma_active_wf(m);
    lemma_next_stale(m, hs, 1);
    let ns = next_stale(m, hs, 1);
    if ns < s.len() {
        assert(spec_stale(m, hs, s[ns].name));
        lemma_aligned(s, ns);
        assert(m.spec_get(s[ns].name) == Some(s[ns]));
        assert(s[ns].parent_oid_cache == head_of(hs, s[ns].parent->0));
        assert(false);
    }
}

} // verus!
