//! The submit engine: pushes the branches of a stack in dependency order,
//! creates or updates one pull request per branch, re-parents existing pull
//! requests when the local parent changed, and keeps a stack-overview
//! comment on every pull request.
//!
//! The remote service is out of scope; the engine is driven branch by
//! branch. For each branch it names the remote work to do (fetch a pull
//! request, update its base, push, create), the caller performs it, and the
//! answers come back as plain values. The engine keeps its own record of
//! what the remote must now contain ([`PrRecord`]), so that what the run
//! guarantees can be stated and proved over that record.

use vstd::prelude::*;
use crate::ctx::{head_of, name_views, HeadMap, HeadModel};
use crate::strutil::{dec_str, str_eq, u64_to_string};
use vstd::string::StringExecFns;
use crate::errors::{StError, StResult};
use crate::tree::{
    first_idx_br, has_br, lemma_active_wf, lemma_first_idx_br, lemma_first_idx_tr,
    lemma_first_idx_tr_is, lemma_wf_update_entry, lemma_wf_with_active_branches, BranchModel,
    RemoteMetadata, StackTree, TreeModel,
};

verus! {

/// Arguments of the `submit` subcommand.
#[derive(Debug, Clone, PartialEq, Eq)]
pub struct SubmitCmd {
    /// Force the pushes, analogous to a forced push.
    pub force: bool,
    /// Submit all tracked branches of the active trunk, not just the stack
    /// around the current branch.
    pub all: bool,
}

/// What the engine believes one pull request on the remote now holds.
#[derive(Debug, Clone, PartialEq, Eq)]
pub struct PrRecord {
    /// The branch the pull request belongs to.
    pub branch: String,
    /// The pull request number.
    pub number: u64,
    /// The pull request's base reference.
    pub base: String,
    /// The head commit id the remote holds for the branch.
    pub head: String,
}

/// The mathematical model of one remote record.
#[verifier::ext_equal]
pub ghost struct PrModel {
    pub branch: Seq<char>,
    pub number: u64,
    pub base: Seq<char>,
    pub head: Seq<char>,
}

impl View for PrRecord {
    type V = PrModel;

    open spec fn view(&self) -> PrModel {
        PrModel { branch: self.branch@, number: self.number, base: self.base@, head: self.head@ }
    }
}

/// The record for `branch`, if any (first match).
pub open spec fn pr_of(ps: Seq<PrModel>, branch: Seq<char>) -> Option<PrModel>
    decreases ps.len(),
{
    if ps.len() == 0 {
        None
    } else if ps[0].branch == branch {
        Some(ps[0])
    } else {
        pr_of(ps.drop_first(), branch)
    }
}

/// Shadowing: a fresh record at the front answers for its own branch and
/// leaves every other lookup unchanged.
pub proof fn lemma_pr_of_shadow(ps: Seq<PrModel>, e: PrModel, x: Seq<char>)
    ensures
        pr_of(seq![e] + ps, x) == if x == e.branch {
            Some(e)
        } else {
            pr_of(ps, x)
        },
{
    let full = seq![e] + ps;
    assert(full[0] == e);
    assert(full.drop_first() =~= ps);
}

/// The remote task the engine names for the branch under examination.
#[derive(Debug, Clone, PartialEq, Eq)]
pub enum BranchTask {
    /// The branch has a pull request: fetch it and report its base
    /// reference and head commit id through `existing`.
    Existing {
        /// The pull request number to fetch.
        number: u64,
    },
    /// The branch has no pull request yet: check whether its parent exists
    /// on the remote and report through `new_checked`.
    New {
        /// The parent branch whose presence on the remote must be checked.
        parent: String,
    },
}

/// The work to perform for a branch whose pull request already exists. The
/// base update, when present, must be performed before the push.
#[derive(Debug, Clone, PartialEq, Eq)]
pub struct ExistingOrder {
    /// Re-target the pull request's base to this name, because the local
    /// parent changed.
    pub update_base: Option<String>,
    /// Push the branch (with the run's force flag), because the remote head
    /// is behind; `None` when the remote is already current.
    pub push: Option<String>,
}

/// The submit engine's state.
pub struct Submitter {
    /// The tree being submitted.
    pub tree: StackTree,
    /// The stack to submit: tracked branch names in dependency order, the
    /// trunk first.
    pub stack: Vec<String>,
    /// The position of the branch under examination (position 0 is the
    /// trunk and is never submitted).
    pub idx: usize,
    /// The local head commit id of every tracked branch.
    pub heads: HeadMap,
    /// What the remote must hold after the work performed so far.
    pub prs: Vec<PrRecord>,
    /// Whether pushes are forced.
    pub force: bool,
    /// Whether the engine waits for `created` for the branch at `idx`.
    pub awaiting_create: bool,
    /// The branches this run knows to exist on the remote: a branch whose
    /// pull request was fetched, a parent whose presence check came back
    /// positive, and a branch whose pull request was created (it was pushed
    /// first).
    pub on_remote: Ghost<Set<Seq<char>>>,
}

/// The remote records of a record list, in order.
pub open spec fn pr_models(ps: Seq<PrRecord>) -> Seq<PrModel> {
    ps.map_values(|p: PrRecord| p@)
}

/// What a finished run guarantees for one branch: if it carries remote
/// metadata, the engine's remote record gives its pull request that number,
/// the branch's local parent as base, and the branch's local head.
pub open spec fn pr_current(
    m: TreeModel,
    hs: Seq<HeadModel>,
    ps: Seq<PrModel>,
    b: BranchModel,
) -> bool {
    match b.remote {
        Some(meta) => pr_of(ps, b.name) == Some(
            PrModel {
                branch: b.name,
                number: meta.pr_number,
                base: b.parent->0,
                head: head_of(hs, b.name)->0,
            },
        ),
        None => true,
    }
}

impl Submitter {
    /// The entry of the active trunk named by stack position `t`.
    pub open spec fn entry(self, t: int) -> BranchModel {
        let s = self.tree@.active();
        s[first_idx_br(s, self.stack@[t]@)]
    }

    /// The engine's invariant: the tree is well-formed; the stack names
    /// distinct tracked branches, all of them non-trunk except position 0;
    /// every stack branch has a known local head; and every branch already
    /// processed is current on the remote as recorded.
    pub open spec fn inv(self) -> bool {
        &&& self.tree@.wf()
        &&& 1 <= self.idx <= self.stack@.len()
        &&& forall|t: int|
            0 <= t < self.stack@.len() ==> has_br(
                self.tree@.active(),
                (#[trigger] self.stack@[t])@,
            )
        &&& forall|t: int| 1 <= t < self.stack@.len() ==> (#[trigger] self.entry(t)).parent is Some
        &&& forall|t: int, u: int|
            0 <= t < u < self.stack@.len() ==> (#[trigger] self.stack@[t])@ != (
            #[trigger] self.stack@[u])@
        &&& forall|t: int|
            1 <= t < self.stack@.len() ==> head_of(
                self.heads@,
                (#[trigger] self.stack@[t])@,
            ) is Some
        &&& forall|t: int|
            1 <= t < self.idx ==> pr_current(
                self.tree@,
                self.heads@,
                pr_models(self.prs@),
                #[trigger] self.entry(t),
            )
        &&& self.awaiting_create ==> self.idx < self.stack@.len()
        &&& self.awaiting_create ==> self.on_remote@.contains(
            self.entry(self.idx as int).parent->0,
        )
    }

    /// Starts a submit run over `stack` (tracked names in dependency order,
    /// the trunk first), with `heads` the local head of every tracked
    /// branch. Fails with `BranchNotTracked` when a stack name is not in the
    /// active trunk, and with `BranchUnavailable` when a branch's head is
    /// missing.
    pub fn new(tree: StackTree, stack: Vec<String>, heads: HeadMap, force: bool) -> (r: StResult<
        Submitter,
    >)
        requires
            tree@.wf(),
            stack@.len() >= 1,
            forall|t: int, u: int|
                0 <= t < u < stack@.len() ==> (#[trigger] stack@[t])@ != (#[trigger] stack@[u])@,
            forall|t: int|
                1 <= t < stack@.len() ==> has_br(tree@.active(), (#[trigger] stack@[t])@) ==> tree@.active()[first_idx_br(
                    tree@.active(),
                    stack@[t]@,
                )].parent is Some,
        ensures
            r matches Ok(e) ==> e.inv() && e.tree@ == tree@ && e.heads@ == heads@ && e.idx == 1
                && !e.awaiting_create && e.prs@.len() == 0 && e.stack@ == stack@ && e.force
                == force && e.on_remote@ == Set::<Seq<char>>::empty(),
            (forall|t: int|
                0 <= t < stack@.len() ==> has_br(tree@.active(), (#[trigger] stack@[t])@))
                && (forall|t: int|
                1 <= t < stack@.len() ==> head_of(heads@, (#[trigger] stack@[t])@) is Some)
                ==> r is Ok,
            r matches Err(e) ==> ((e matches StError::BranchNotTracked(n) && exists|t: int|
                0 <= t < stack@.len() && (#[trigger] stack@[t])@ == n@ && !has_br(
                    tree@.active(),
                    stack@[t]@,
                )) || (e is BranchUnavailable && exists|t: int|
                1 <= t < stack@.len() && head_of(heads@, (#[trigger] stack@[t])@) is None)),
    {
        let ghost m = tree@;
        let ghost s = m.active();
        proof {
            lemma_active_wf(m);
        }
        let mut t: usize = 0;
        while t < stack.len()
            invariant
                tree@ == m,
                s == m.active(),
                m.wf(),
                t <= stack@.len(),
                forall|u: int| 0 <= u < t ==> has_br(s, (#[trigger] stack@[u])@),
                forall|u: int|
                    1 <= u < t ==> head_of(heads@, (#[trigger] stack@[u])@) is Some,
            decreases stack@.len() - t,
        {
            if tree.get(stack[t].as_str()).is_none() {
                return Err(StError::BranchNotTracked(stack[t].clone()));
            }
            proof {
                lemma_first_idx_br(s, stack@[t as int]@);
            }
            if t >= 1 {
                if heads.get(stack[t].as_str()).is_none() {
                    return Err(StError::BranchUnavailable);
                }
            }
            t = t + 1;
        }
        Ok(
            Submitter {
                tree,
                stack,
                idx: 1,
                heads,
                prs: Vec::new(),
                force,
                awaiting_create: false,
                on_remote: Ghost(Set::empty()),
            },
        )
    }

    /// Names the remote task for the branch under examination, or `None`
    /// when the whole stack has been handled.
    pub fn next_task(&self) -> (r: Option<BranchTask>)
        requires
            self.inv(),
            !self.awaiting_create,
        ensures
            self.idx >= self.stack@.len() <==> r is None,
            self.idx < self.stack@.len() ==> match r {
                Some(task) => match self.entry(self.idx as int).remote {
                    Some(meta) => task == BranchTask::Existing { number: meta.pr_number },
                    None => (task matches BranchTask::New { parent } && parent@ == self.entry(
                        self.idx as int,
                    ).parent->0),
                },
                None => false,
            },
    {
        if self.idx >= self.stack.len() {
            return None;
        }
        let ghost m = self.tree@;
        let ghost s = m.active();
        proof {
            lemma_active_wf(m);
            lemma_first_idx_br(s, self.stack@[self.idx as int]@);
        }
        let b = match self.tree.get(self.stack[self.idx].as_str()) {
            Some(b) => b,
            None => {
                proof {
                    assert(false);
                }
                return None;
            },
        };
        match &b.remote {
            Some(meta) => Some(BranchTask::Existing { number: meta.pr_number }),
            None => match &b.parent {
                Some(p) => Some(BranchTask::New { parent: p.clone() }),
                None => {
                    proof {
                        assert(false);
                    }
                    None
                },
            },
        }
    }

    /// Applies the fetched state of the branch's existing pull request and
    /// returns the work to perform: a base re-target when the pull
    /// request's base is no longer the local parent (this is what
    /// propagates re-parenting after a branch deletion), and a push when
    /// the remote head is not the local head. When the remote already
    /// matches, the order is empty and re-running submit performs no
    /// remote writes.
    pub fn existing(&mut self, base_ref: String, head_sha: String) -> (r: ExistingOrder)
        requires
            old(self).inv(),
            !old(self).awaiting_create,
            old(self).idx < old(self).stack@.len(),
            old(self).entry(old(self).idx as int).remote is Some,
        ensures
            final(self).inv(),
            !final(self).awaiting_create,
            final(self).idx == old(self).idx + 1,
            final(self).tree@ == old(self).tree@,
            final(self).heads@ == old(self).heads@,
            final(self).stack@ == old(self).stack@,
            final(self).force == old(self).force,
            ({
                let b = old(self).entry(old(self).idx as int);
                let local = head_of(old(self).heads@, b.name)->0;
                &&& (base_ref@ != b.parent->0 ==> (r.update_base matches Some(p) && p@
                    == b.parent->0))
                &&& (base_ref@ == b.parent->0 ==> r.update_base is None)
                &&& (head_sha@ != local ==> (r.push matches Some(n) && n@ == b.name))
                &&& (head_sha@ == local ==> r.push is None)
                &&& pr_models(final(self).prs@) == seq![
                    PrModel {
                        branch: b.name,
                        number: b.remote->0.pr_number,
                        base: b.parent->0,
                        head: local,
                    },
                ] + pr_models(old(self).prs@)
                &&& final(self).on_remote@ == old(self).on_remote@.insert(b.name)
            }),
    {
        let ghost m = self.tree@;
        let ghost s = m.active();
        let i = self.idx;
        let n = self.stack.len();
        proof {
            assert(i < n);
            lemma_active_wf(m);
            lemma_first_idx_br(s, self.stack@[i as int]@);
        }
        let ghost b0 = self.entry(i as int);
        let (name, parent, number): (String, String, u64) = match self.tree.get(
            self.stack[i].as_str(),
        ) {
            Some(b) => {
                let nm = b.name.clone();
                let p: String = match &b.parent {
                    Some(p) => p.clone(),
                    None => {
                        proof {
                            assert(false);
                        }
                        String::new()
                    },
                };
                let num: u64 = match &b.remote {
                    Some(meta) => meta.pr_number,
                    None => {
                        proof {
                            assert(false);
                        }
                        0
                    },
                };
                (nm, p, num)
            },
            None => {
                proof {
                    assert(false);
                }
                (String::new(), String::new(), 0)
            },
        };
        let local: String = match self.heads.get(name.as_str()) {
            Some(h) => h.clone(),
            None => {
                proof {
                    assert(false);
                }
                String::new()
            },
        };
        let update_base: Option<String> = if !crate::strutil::str_eq(
            base_ref.as_str(),
            parent.as_str(),
        ) {
            Some(parent.clone())
        } else {
            None
        };
        let push: Option<String> = if !crate::strutil::str_eq(head_sha.as_str(), local.as_str()) {
            Some(name.clone())
        } else {
            None
        };
        let ghost oldprs = pr_models(self.prs@);
        self.prs.insert(
            0,
            PrRecord { branch: name, number, base: parent, head: local },
        );
        self.on_remote = Ghost(self.on_remote@.insert(b0.name));
        self.idx = i + 1;
        proof {
            assert(pr_models(self.prs@) =~= seq![self.prs@[0]@] + oldprs);
            let rec = PrModel {
                branch: b0.name,
                number: b0.remote->0.pr_number,
                base: b0.parent->0,
                head: head_of(self.heads@, b0.name)->0,
            };
            assert(self.prs@[0]@ == rec);
            assert forall|t: int|
                0 <= t < self.stack@.len() implies #[trigger] self.entry(t) == old(self).entry(
                t,
            ) by {}
            assert forall|t: int|
                1 <= t < self.idx implies pr_current(
                self.tree@,
                self.heads@,
                pr_models(self.prs@),
                #[trigger] self.entry(t),
            ) by {
                lemma_first_idx_br(s, self.stack@[t]@);
                assert(self.entry(t) == old(self).entry(t));
                assert(self.entry(t).name == self.stack@[t]@);
                lemma_pr_of_shadow(oldprs, rec, self.entry(t).name);
                if t < i {
                    assert(self.stack@[t]@ != self.stack@[i as int]@);
                    assert(pr_current(m, self.heads@, oldprs, old(self).entry(t)));
                } else {
                    assert(t == i);
                    assert(self.entry(t) == b0);
                }
            }
            assert forall|t: int|
                1 <= t < self.stack@.len() implies (#[trigger] self.entry(t)).parent is Some by {
                assert(self.entry(t) == old(self).entry(t));
                assert(old(self).entry(t).parent is Some);
            }
        }
        ExistingOrder { update_base, push }
    }

    /// Applies the answer to the remote-presence check for a branch without
    /// a pull request. When the parent exists on the remote, the engine
    /// returns the branch to push (create the pull request only after that
    /// push, then report it through `created`); when it does not, the run
    /// fails with `BaseBranchNotOnRemote` before anything is pushed.
    pub fn new_checked(&mut self, exists: bool) -> (r: StResult<String>)
        requires
            old(self).inv(),
            !old(self).awaiting_create,
            old(self).idx < old(self).stack@.len(),
            old(self).entry(old(self).idx as int).remote is None,
        ensures
            final(self).inv(),
            final(self).idx == old(self).idx,
            final(self).tree@ == old(self).tree@,
            final(self).heads@ == old(self).heads@,
            final(self).stack@ == old(self).stack@,
            final(self).prs@ == old(self).prs@,
            final(self).force == old(self).force,
            exists ==> (r matches Ok(nm) && nm@ == old(self).entry(old(self).idx as int).name)
                && final(self).awaiting_create && final(self).on_remote@ == old(
                self,
            ).on_remote@.insert(old(self).entry(old(self).idx as int).parent->0),
            !exists ==> (r matches Err(e) && e matches StError::BaseBranchNotOnRemote(p) && p@
                == old(self).entry(old(self).idx as int).parent->0)
                && !final(self).awaiting_create && final(self).on_remote@ == old(
                self,
            ).on_remote@,
    {
        let ghost m = self.tree@;
        let ghost s = m.active();
        let i = self.idx;
        proof {
            lemma_active_wf(m);
            lemma_first_idx_br(s, self.stack@[i as int]@);
        }
        let (name, parent): (String, String) = match self.tree.get(self.stack[i].as_str()) {
            Some(b) => {
                let nm = b.name.clone();
                let p: String = match &b.parent {
                    Some(p) => p.clone(),
                    None => {
                        proof {
                            assert(false);
                        }
                        String::new()
                    },
                };
                (nm, p)
            },
            None => {
                proof {
                    assert(false);
                }
                (String::new(), String::new())
            },
        };
        if !exists {
            return Err(StError::BaseBranchNotOnRemote(parent));
        }
        self.awaiting_create = true;
        self.on_remote = Ghost(self.on_remote@.insert(self.entry(i as int).parent->0));
        proof {
            assert forall|t: int|
                0 <= t < self.stack@.len() implies #[trigger] self.entry(t) == old(self).entry(
                t,
            ) by {}
            assert forall|t: int|
                1 <= t < self.idx implies pr_current(
                self.tree@,
                self.heads@,
                pr_models(self.prs@),
                #[trigger] self.entry(t),
            ) by {
                assert(self.entry(t) == old(self).entry(t));
                assert(pr_current(m, self.heads@, pr_models(self.prs@), old(self).entry(t)));
            }
            assert forall|t: int|
                1 <= t < self.stack@.len() implies (#[trigger] self.entry(t)).parent is Some by {
                assert(self.entry(t) == old(self).entry(t));
                assert(old(self).entry(t).parent is Some);
            }
        }
        Ok(name)
    }

    /// Records the pull request created for the branch under examination
    /// (head pushed, base its local parent): the branch learns its pull
    /// request number, the engine's remote record learns the new pull
    /// request, and the engine moves on.
    ///
    /// Law: no pull request is created before its base exists on the
    /// remote — this call demands the state only a positive remote-presence
    /// check establishes, so the created pull request's base is among the
    /// branches the run knows to be on the remote.
    pub fn created(&mut self, number: u64)
        requires
            old(self).inv(),
            old(self).awaiting_create,
            old(self).idx < old(self).stack@.len(),
            old(self).entry(old(self).idx as int).remote is None,
        ensures
            old(self).on_remote@.contains(old(self).entry(old(self).idx as int).parent->0),
            final(self).on_remote@ == old(self).on_remote@.insert(
                old(self).entry(old(self).idx as int).name,
            ),
            final(self).inv(),
            !final(self).awaiting_create,
            final(self).idx == old(self).idx + 1,
            final(self).heads@ == old(self).heads@,
            final(self).stack@ == old(self).stack@,
            final(self).force == old(self).force,
            ({
                let m = old(self).tree@;
                let s = m.active();
                let b = old(self).entry(old(self).idx as int);
                let fi = first_idx_br(s, old(self).stack@[old(self).idx as int]@);
                let local = head_of(old(self).heads@, b.name)->0;
                &&& final(self).tree@ =~~= m.with_active_branches(
                    s.update(
                        fi,
                        BranchModel {
                            remote: Some(RemoteMetadata { pr_number: number, comment_id: None }),
                            ..b
                        },
                    ),
                )
                &&& pr_models(final(self).prs@) == seq![
                    PrModel { branch: b.name, number: number, base: b.parent->0, head: local },
                ] + pr_models(old(self).prs@)
            }),
    {
        let ghost m = self.tree@;
        let ghost s = m.active();
        let i = self.idx;
        let n = self.stack.len();
        proof {
            assert(i < n);
            lemma_active_wf(m);
            lemma_first_idx_br(s, self.stack@[i as int]@);
        }
        proof {
            lemma_first_idx_tr(m.trunks, m.active_trunk);
        }
        let ghost b0 = self.entry(i as int);
        let ghost fi = first_idx_br(s, self.stack@[i as int]@);
        let (name, parent): (String, String) = match self.tree.get(self.stack[i].as_str()) {
            Some(b) => {
                let nm = b.name.clone();
                let p: String = match &b.parent {
                    Some(p) => p.clone(),
                    None => {
                        proof {
                            assert(false);
                        }
                        String::new()
                    },
                };
                (nm, p)
            },
            None => {
                proof {
                    assert(false);
                }
                (String::new(), String::new())
            },
        };
        let local: String = match self.heads.get(name.as_str()) {
            Some(h) => h.clone(),
            None => {
                proof {
                    assert(false);
                }
                String::new()
            },
        };
        match self.tree.get_mut(self.stack[i].as_str()) {
            Some(b) => {
                b.remote = Some(RemoteMetadata::new(number));
            },
            None => {
                proof {
                    assert(false);
                }
            },
        }
        proof {
            let e = BranchModel {
                remote: Some(RemoteMetadata { pr_number: number, comment_id: None }),
                ..b0
            };
            assert(self.tree@.active() =~= s.update(fi, e)) by {
                lemma_first_idx_tr(m.trunks, m.active_trunk);
                assert(forall|j: int|
                    0 <= j < self.tree@.trunks.len() ==> (#[trigger] self.tree@.trunks[j]).name
                        == m.trunks[j].name);
                lemma_first_idx_tr_is(self.tree@.trunks, m.active_trunk, m.active_idx());
            }
            assert(fi >= 1) by {
                if fi == 0 {
                    assert(s[0].parent is None);
                }
            }
            lemma_wf_update_entry(s, m.trunks[m.active_idx()].name, fi, e);
            lemma_wf_with_active_branches(m, s.update(fi, e));
            assert(self.tree@ =~~= m.with_active_branches(s.update(fi, e)));
            assert(self.tree@.wf()) by {
                assert(m.with_active_branches(s.update(fi, e)).wf());
            }
        }
        let ghost m2 = self.tree@;
        let ghost s2 = m2.active();
        let ghost oldprs = pr_models(self.prs@);
        self.prs.insert(
            0,
            PrRecord { branch: name, number, base: parent, head: local },
        );
        self.on_remote = Ghost(self.on_remote@.insert(b0.name));
        self.awaiting_create = false;
        self.idx = i + 1;
        proof {
            assert(pr_models(self.prs@) =~= seq![self.prs@[0]@] + oldprs);
            let rec = PrModel {
                branch: b0.name,
                number: number,
                base: b0.parent->0,
                head: head_of(self.heads@, b0.name)->0,
            };
            assert(self.prs@[0]@ == rec);
            assert(s2 == s.update(fi, BranchModel {
                remote: Some(RemoteMetadata { pr_number: number, comment_id: None }),
                ..b0
            }));
            assert forall|t: int|
                0 <= t < self.stack@.len() implies has_br(s2, (#[trigger] self.stack@[t])@) by {
                lemma_first_idx_br(s, self.stack@[t]@);
                assert(forall|j: int| 0 <= j < s2.len() ==> (#[trigger] s2[j]).name == s[j].name);
                crate::tree::lemma_first_idx_br_is(s2, self.stack@[t]@, first_idx_br(s, self.stack@[t]@));
            }
            assert forall|t: int|
                1 <= t < self.idx implies pr_current(
                self.tree@,
                self.heads@,
                pr_models(self.prs@),
                #[trigger] self.entry(t),
            ) by {
                lemma_first_idx_br(s, self.stack@[t]@);
                assert(forall|j: int| 0 <= j < s2.len() ==> (#[trigger] s2[j]).name == s[j].name);
                crate::tree::lemma_first_idx_br_is(s2, self.stack@[t]@, first_idx_br(s, self.stack@[t]@));
                let ft = first_idx_br(s, self.stack@[t]@);
                assert(self.entry(t) == s2[ft]);
                assert(s[ft].name == self.stack@[t]@);
                lemma_pr_of_shadow(oldprs, rec, s2[ft].name);
                if t < i {
                    assert(self.stack@[t]@ != self.stack@[i as int]@);
                    assert(ft != fi) by {
                        assert(s[fi].name == self.stack@[i as int]@);
                    }
                    assert(s2[ft] == s[ft]);
                    assert(old(self).entry(t) == s[ft]);
                    assert(pr_current(m, self.heads@, oldprs, old(self).entry(t)));
                    assert(s2[ft].name != b0.name);
                } else {
                    assert(t == i);
                    assert(ft == fi);
                    assert(s2[fi].remote == Some(RemoteMetadata { pr_number: number, comment_id: None }));
                }
            }
            assert forall|t: int|
                1 <= t < self.stack@.len() implies (#[trigger] self.entry(t)).parent is Some by {
                lemma_first_idx_br(s, self.stack@[t]@);
                assert(forall|j: int| 0 <= j < s2.len() ==> (#[trigger] s2[j]).name == s[j].name);
                crate::tree::lemma_first_idx_br_is(s2, self.stack@[t]@, first_idx_br(s, self.stack@[t]@));
                let ft = first_idx_br(s, self.stack@[t]@);
                assert(self.entry(t) == s2[ft]);
                assert(s2[ft].parent == s[ft].parent);
                assert(old(self).entry(t) == s[ft]);
            }
        }
    }

    /// Ends the run, handing back the tree and the engine's record of the
    /// remote.
    pub fn finish(self) -> (r: (StackTree, Vec<PrRecord>))
        ensures
            r.0@ == self.tree@,
            r.1@ == self.prs@,
    {
        (self.tree, self.prs)
    }
}

/// Law: a finished submit run leaves every branch of the stack current —
/// each branch that carries remote metadata has, in the engine's record of
/// the remote, a pull request with that number whose base reference is the
/// branch's local parent and whose head is the branch's local head.
pub proof fn lemma_submit_complete(e: Submitter)
    requires
        e.inv(),
        e.idx == e.stack@.len(),
        !e.awaiting_create,
    ensures
        forall|t: int|
            1 <= t < e.stack@.len() ==> pr_current(
                e.tree@,
                e.heads@,
                pr_models(e.prs@),
                #[trigger] e.entry(t),
            ),
{
}

/// The stack-overview line for one branch: a link to its pull request, with
/// a marker on the current branch; branches without a pull request
/// contribute nothing.
pub open spec fn pr_line(m: TreeModel, name: Seq<char>, current: Seq<char>) -> Seq<char> {
    match m.spec_get(name) {
        Some(b) => match b.remote {
            Some(meta) => "* #"@ + dec_str(meta.pr_number as nat) + (if name == current {
                " 👈"@
            } else {
                Seq::<char>::empty()
            }) + "\n"@,
            None => Seq::empty(),
        },
        None => Seq::empty(),
    }
}

/// The stack-overview lines for stack positions `hi` down to `lo`, top of
/// the stack first.
pub open spec fn pr_lines_down(
    m: TreeModel,
    stack: Seq<Seq<char>>,
    current: Seq<char>,
    hi: int,
    lo: int,
) -> Seq<char>
    decreases hi + 1 - lo,
{
    if hi < lo {
        Seq::empty()
    } else {
        pr_line(m, stack[hi], current) + pr_lines_down(m, stack, current, hi - 1, lo)
    }
}

/// Splitting the last line off a run of stack-overview lines.
pub proof fn lemma_pr_lines_split(
    m: TreeModel,
    stack: Seq<Seq<char>>,
    current: Seq<char>,
    hi: int,
    lo: int,
)
    requires
        lo <= hi,
    ensures
        pr_lines_down(m, stack, current, hi, lo) == pr_lines_down(m, stack, current, hi, lo + 1)
            + pr_line(m, stack[lo], current),
    decreases hi + 1 - lo,
{
    if hi == lo {
        assert(pr_lines_down(m, stack, current, hi - 1, lo) =~= Seq::<char>::empty());
        assert(pr_lines_down(m, stack, current, hi, lo + 1) =~= Seq::<char>::empty());
        assert(pr_lines_down(m, stack, current, hi, lo) =~= pr_lines_down(
            m,
            stack,
            current,
            hi,
            lo + 1,
        ) + pr_line(m, stack[lo], current));
    } else {
        lemma_pr_lines_split(m, stack, current, hi - 1, lo);
        assert(pr_lines_down(m, stack, current, hi, lo) =~= pr_lines_down(
            m,
            stack,
            current,
            hi,
            lo + 1,
        ) + pr_line(m, stack[lo], current));
    }
}

/// The whole stack-overview comment: a heading, one line per submitted
/// branch in reverse dependency order, the trunk in code formatting, and an
/// attribution line.
pub open spec fn comment_spec(m: TreeModel, stack: Seq<Seq<char>>, current: Seq<char>) -> Seq<
    char,
> {
    "## 📚 $\\text{Stack Overview}$\n\n"@ + "Pulls submitted in this stack:\n"@ + pr_lines_down(
        m,
        stack,
        current,
        stack.len() - 1,
        1,
    ) + "* `"@ + m.active_trunk + "`\n"@
        + "\n_This comment was automatically generated by [`st`](https://github.com/mahbd/st)._"@
}

impl SubmitCmd {
    /// Renders the stack-overview comment for `current_branch` within
    /// `stack`: the stack's pull requests from the top down, each as a
    /// `#number` link, a pointing marker on the current branch, then the
    /// trunk. Fails with `BranchNotTracked` when a stack entry above the
    /// trunk is not tracked.
    pub fn render_pr_comment(tree: &StackTree, current_branch: &str, stack: &Vec<String>) -> (r:
        StResult<String>)
        ensures
            (forall|t: int|
                1 <= t < stack@.len() ==> has_br(tree@.active(), (#[trigger] stack@[t])@)) ==> (r
                matches Ok(c) && c@ == comment_spec(tree@, name_views(stack@), current_branch@)),
            r matches Err(e) ==> e matches StError::BranchNotTracked(n) && (exists|t: int|
                1 <= t < stack@.len() && (#[trigger] stack@[t])@ == n@ && !has_br(
                    tree@.active(),
                    stack@[t]@,
                )),
    {
        let ghost m = tree@;
        let ghost ns = name_views(stack@);
        let mut c: String = "## 📚 $\\text{Stack Overview}$\n\n".to_owned();
        c.append("Pulls submitted in this stack:\n");
        let ghost header = c@;
        let mut k: usize = stack.len();
        while k > 1
            invariant
                1 <= k <= stack@.len() || (stack@.len() <= 1 && k == stack@.len()),
                m == tree@,
                ns == name_views(stack@),
                c@ == header + pr_lines_down(m, ns, current_branch@, stack@.len() - 1, k as int),
                forall|t: int|
                    k <= t < stack@.len() ==> has_br(m.active(), (#[trigger] stack@[t])@),
            decreases k,
        {
            k = k - 1;
            let b = match tree.get(stack[k].as_str()) {
                Some(b) => b,
                None => {
                    return Err(StError::BranchNotTracked(stack[k].clone()));
                },
            };
            proof {
                assert(ns[k as int] == stack@[k as int]@);
                assert(m.spec_get(ns[k as int]) == Some(b@));
                assert(has_br(m.active(), stack@[k as int]@));
            }
            let ghost pre = c@;
            match &b.remote {
                Some(meta) => {
                    c.append("* #");
                    let num = u64_to_string(meta.pr_number);
                    c.append(num.as_str());
                    if str_eq(stack[k].as_str(), current_branch) {
                        c.append(" 👈");
                    }
                    c.append("\n");
                },
                None => {},
            }
            proof {
                crate::tree::lemma_first_idx_br(m.active(), ns[k as int]);
                assert(c@ =~= pre + pr_line(m, ns[k as int], current_branch@));
                lemma_pr_lines_split(m, ns, current_branch@, stack@.len() - 1, k as int);
                assert(c@ =~= header + pr_lines_down(
                    m,
                    ns,
                    current_branch@,
                    stack@.len() - 1,
                    k as int,
                ));
            }
        }
        c.append("* `");
        c.append(tree.trunk_name());
        c.append("`\n");
        c.append(
            "\n_This comment was automatically generated by [`st`](https://github.com/mahbd/st)._",
        );
        proof {
            if stack@.len() <= 1 {
                assert(pr_lines_down(m, ns, current_branch@, stack@.len() - 1, 1)
                    =~= Seq::<char>::empty());
            }
            assert(c@ =~= comment_spec(m, ns, current_branch@));
        }
        Ok(c)
    }
}

/// One comment to write: the pull request to write it on, the recorded
/// comment id when the comment already exists, and the rendered body.
#[derive(Debug, Clone, PartialEq, Eq)]
pub struct CommentTask {
    /// The pull request number.
    pub number: u64,
    /// The id of the stack-overview comment, when one was already created.
    pub comment_id: Option<u64>,
    /// The rendered comment body.
    pub body: String,
}

/// The comment-sync pass: after the push loop, walk the stack and bring the
/// stack-overview comment of every submitted branch up to date.
pub struct CommentSyncer {
    /// The tree being annotated.
    pub tree: StackTree,
    /// The stack that was submitted, the trunk first.
    pub stack: Vec<String>,
    /// The name of the current branch, marked in the rendered comments.
    pub current: String,
    /// The position of the branch under examination.
    pub idx: usize,
}

impl CommentSyncer {
    /// The entry of the active trunk named by stack position `t`.
    pub open spec fn entry(self, t: int) -> BranchModel {
        let s = self.tree@.active();
        s[first_idx_br(s, self.stack@[t]@)]
    }

    /// The syncer's invariant.
    pub open spec fn inv(self) -> bool {
        &&& self.tree@.wf()
        &&& 1 <= self.idx <= self.stack@.len()
        &&& forall|t: int|
            0 <= t < self.stack@.len() ==> has_br(
                self.tree@.active(),
                (#[trigger] self.stack@[t])@,
            )
        &&& forall|t: int, u: int|
            0 <= t < u < self.stack@.len() ==> (#[trigger] self.stack@[t])@ != (
            #[trigger] self.stack@[u])@
    }

    /// Starts the pass.
    pub fn new(tree: StackTree, stack: Vec<String>, current: String) -> (r: StResult<
        CommentSyncer,
    >)
        requires
            tree@.wf(),
            stack@.len() >= 1,
            forall|t: int, u: int|
                0 <= t < u < stack@.len() ==> (#[trigger] stack@[t])@ != (#[trigger] stack@[u])@,
        ensures
            r matches Ok(e) ==> e.inv() && e.tree@ == tree@ && e.stack@ == stack@ && e.idx == 1
                && e.current@ == current@,
            (forall|t: int|
                0 <= t < stack@.len() ==> has_br(tree@.active(), (#[trigger] stack@[t])@)) ==> r
                is Ok,
            r matches Err(e) ==> e matches StError::BranchNotTracked(n) && (exists|t: int|
                0 <= t < stack@.len() && (#[trigger] stack@[t])@ == n@ && !has_br(
                    tree@.active(),
                    stack@[t]@,
                )),
    {
        let mut t: usize = 0;
        while t < stack.len()
            invariant
                t <= stack@.len(),
                forall|u: int| 0 <= u < t ==> has_br(tree@.active(), (#[trigger] stack@[u])@),
            decreases stack@.len() - t,
        {
            if tree.get(stack[t].as_str()).is_none() {
                return Err(StError::BranchNotTracked(stack[t].clone()));
            }
            proof {
                crate::tree::lemma_first_idx_br(tree@.active(), stack@[t as int]@);
            }
            t = t + 1;
        }
        Ok(CommentSyncer { tree, stack, current, idx: 1 })
    }

    /// The next comment to write: skips branches without a pull request —
    /// and only those, so every submitted branch of the stack is visited —
    /// renders the stack-overview body for the next submitted branch, and
    /// returns it with the branch's pull request number and recorded
    /// comment id. Returns `None` exactly when no submitted branch is left.
    #[verifier::loop_isolation(false)]
    pub fn next_comment(&mut self) -> (r: StResult<Option<CommentTask>>)
        requires
            old(self).inv(),
        ensures
            r is Ok,
            final(self).inv(),
            final(self).tree@ == old(self).tree@,
            final(self).stack@ == old(self).stack@,
            final(self).current@ == old(self).current@,
            final(self).idx >= old(self).idx,
            forall|t: int|
                old(self).idx <= t < final(self).idx ==> (#[trigger] final(self).entry(
                    t,
                )).remote is None,
            r matches Ok(q) ==> match q {
                Some(task) => final(self).idx < final(self).stack@.len() && (final(self).entry(
                    final(self).idx as int,
                ).remote matches Some(meta) && task.number == meta.pr_number && task.comment_id
                    == meta.comment_id) && task.body@ == comment_spec(
                    final(self).tree@,
                    name_views(final(self).stack@),
                    final(self).current@,
                ),
                None => final(self).idx == final(self).stack@.len(),
            },
    {
        let ghost m = self.tree@;
        let ghost s = m.active();
        while self.idx < self.stack.len()
            invariant
                self.inv(),
                self.tree@ == m,
                s == m.active(),
                self.stack@ == old(self).stack@,
                self.current@ == old(self).current@,
                self.idx >= old(self).idx,
                forall|t: int|
                    old(self).idx <= t < self.idx ==> (#[trigger] old(self).entry(
                        t,
                    )).remote is None,
            decreases self.stack@.len() - self.idx,
        {
            let i = self.idx;
            proof {
                crate::tree::lemma_active_wf(m);
                crate::tree::lemma_first_idx_br(s, self.stack@[i as int]@);
            }
            let has_remote: bool = match self.tree.get(self.stack[i].as_str()) {
                Some(b) => b.remote.is_some(),
                None => {
                    proof {
                        assert(false);
                    }
                    false
                },
            };
            if has_remote {
                let body = match SubmitCmd::render_pr_comment(
                    &self.tree,
                    self.current.as_str(),
                    &self.stack,
                ) {
                    Ok(b) => b,
                    Err(e) => {
                        proof {
                            assert(false);
                        }
                        return Err(e);
                    },
                };
                let (number, comment_id): (u64, Option<u64>) = match self.tree.get(
                    self.stack[i].as_str(),
                ) {
                    Some(b) => match &b.remote {
                        Some(meta) => (meta.pr_number, meta.comment_id),
                        None => {
                            proof {
                                assert(false);
                            }
                            (0, None)
                        },
                    },
                    None => {
                        proof {
                            assert(false);
                        }
                        (0, None)
                    },
                };
                proof {
                    assert forall|t: int|
                        old(self).idx <= t < self.idx implies (#[trigger] self.entry(
                        t,
                    )).remote is None by {
                        assert(self.entry(t) == old(self).entry(t));
                    }
                }
                return Ok(Some(CommentTask { number, comment_id, body }));
            }
            proof {
                assert(self.entry(i as int).remote is None);
                assert(old(self).entry(i as int) == self.entry(i as int));
            }
            self.idx = i + 1;
        }
        proof {
            assert forall|t: int|
                old(self).idx <= t < self.idx implies (#[trigger] self.entry(t)).remote
                is None by {
                assert(self.entry(t) == old(self).entry(t));
            }
        }
        Ok(None)
    }

    /// Reports that the existing comment named by the last task was updated
    /// in place; the engine moves to the next branch.
    pub fn comment_done(&mut self)
        requires
            old(self).inv(),
            old(self).idx < old(self).stack@.len(),
        ensures
            final(self).inv(),
            final(self).tree@ == old(self).tree@,
            final(self).stack@ == old(self).stack@,
            final(self).current@ == old(self).current@,
            final(self).idx == old(self).idx + 1,
    {
        let i = self.idx;
        let n = self.stack.len();
        proof {
            assert(i < n);
        }
        self.idx = i + 1;
    }

    /// Records the id of the comment just created on the branch's pull
    /// request, and moves to the next branch.
    pub fn comment_created(&mut self, id: u64)
        requires
            old(self).inv(),
            old(self).idx < old(self).stack@.len(),
            old(self).entry(old(self).idx as int).remote is Some,
        ensures
            final(self).inv(),
            final(self).stack@ == old(self).stack@,
            final(self).current@ == old(self).current@,
            final(self).idx == old(self).idx + 1,
            ({
                let m = old(self).tree@;
                let s = m.active();
                let b = old(self).entry(old(self).idx as int);
                let fi = first_idx_br(s, old(self).stack@[old(self).idx as int]@);
                final(self).tree@ =~~= m.with_active_branches(
                    s.update(
                        fi,
                        BranchModel {
                            remote: Some(
                                RemoteMetadata {
                                    pr_number: b.remote->0.pr_number,
                                    comment_id: Some(id),
                                },
                            ),
                            ..b
                        },
                    ),
                )
            }),
    {
        let ghost m = self.tree@;
        let ghost s = m.active();
        let i = self.idx;
        let n = self.stack.len();
        proof {
            assert(i < n);
            lemma_active_wf(m);
            lemma_first_idx_tr(m.trunks, m.active_trunk);
            lemma_first_idx_br(s, self.stack@[i as int]@);
        }
        let ghost b0 = self.entry(i as int);
        let ghost fi = first_idx_br(s, self.stack@[i as int]@);
        let number: u64 = match self.tree.get(self.stack[i].as_str()) {
            Some(b) => match &b.remote {
                Some(meta) => meta.pr_number,
                None => {
                    proof {
                        assert(false);
                    }
                    0
                },
            },
            None => {
                proof {
                    assert(false);
                }
                0
            },
        };
        match self.tree.get_mut(self.stack[i].as_str()) {
            Some(b) => {
                b.remote = Some(RemoteMetadata { pr_number: number, comment_id: Some(id) });
            },
            None => {
                proof {
                    assert(false);
                }
            },
        }
        proof {
            let e = BranchModel {
                remote: Some(
                    RemoteMetadata { pr_number: b0.remote->0.pr_number, comment_id: Some(id) },
                ),
                ..b0
            };
            assert(self.tree@.active() =~= s.update(fi, e)) by {
                lemma_first_idx_tr(m.trunks, m.active_trunk);
                assert(forall|j: int|
                    0 <= j < self.tree@.trunks.len() ==> (#[trigger] self.tree@.trunks[j]).name
                        == m.trunks[j].name);
                lemma_first_idx_tr_is(self.tree@.trunks, m.active_trunk, m.active_idx());
            }
            assert(fi >= 1 || fi == 0);
            let trunkname = m.trunks[m.active_idx()].name;
            if fi >= 1 {
                lemma_wf_update_entry(s, trunkname, fi, e);
            } else {
                lemma_wf_update_entry(s, trunkname, fi, e);
            }
            lemma_wf_with_active_branches(m, s.update(fi, e));
            assert(self.tree@ =~~= m.with_active_branches(s.update(fi, e)));
            assert(self.tree@.wf()) by {
                assert(m.with_active_branches(s.update(fi, e)).wf());
            }
            assert forall|t: int|
                0 <= t < self.stack@.len() implies has_br(
                self.tree@.active(),
                (#[trigger] self.stack@[t])@,
            ) by {
                lemma_first_idx_br(s, self.stack@[t]@);
                assert(forall|j: int|
                    0 <= j < self.tree@.active().len() ==> (#[trigger] self.tree@.active()[j]).name
                        == s[j].name);
                crate::tree::lemma_first_idx_br_is(
                    self.tree@.active(),
                    self.stack@[t]@,
                    first_idx_br(s, self.stack@[t]@),
                );
            }
        }
        self.idx = i + 1;
    }

    /// Ends the pass, handing the annotated tree back.
    pub fn finish(self) -> (r: StackTree)
        ensures
            r@ == self.tree@,
    {
        self.tree
    }
}

} // verus!
