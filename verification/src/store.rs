//! The value layer of the store: rebuilding a tree from its parts, with the
//! documented invariants checked executably.
//!
//! The character layer of the persisted document (a TOML mapping) is handled
//! outside, through mirrored types; what reaches the library on load is the
//! active trunk's name and the trunks with their branch lists. A tree
//! decomposes into exactly these parts, and [`StackTree::from_parts`]
//! reproduces it from them — so saving and re-loading a well-formed tree
//! yields the same tree, while a corrupted document is rejected rather than
//! ever producing a tree that breaks the invariants.

use vstd::prelude::*;
use crate::errors::{StError, StResult};
use crate::strutil::str_eq;
use crate::tree::{
    find_br, find_tr, first_idx_br, first_idx_tr, lemma_first_idx_br, models, trunk_models,
    wf_branches, StackTree, TrackedBranch, TreeModel, TrunkBranches,
};

verus! {

/// Decides [`wf_branches`]: whether `v` is a well-formed branch list for a
/// trunk named `trunk`.
#[verifier::loop_isolation(false)]
#[verifier::rlimit(100)]
pub fn check_branches(v: &Vec<TrackedBranch>, trunk: &str) -> (r: bool)
    ensures
        r == wf_branches(models(v@), trunk@),
{
    let ghost s = models(v@);
    let n = v.len();
    if n == 0 {
        return false;
    }
    if !str_eq(v[0].name.as_str(), trunk) {
        return false;
    }
    if v[0].parent.is_some() || v[0].parent_oid_cache.is_some() {
        return false;
    }
    let mut i: usize = 0;
    while i < n
        invariant
            i <= n,
            forall|t: int| 1 <= t < i ==> (#[trigger] s[t]).parent is Some,
            forall|t: int| 1 <= t < i ==> (#[trigger] s[t]).parent_oid_cache is Some,
            forall|t: int| 0 <= t < i ==> first_idx_br(s, (#[trigger] s[t]).name) == t,
            forall|t: int| 1 <= t < i ==> first_idx_br(s, (#[trigger] s[t]).parent->0) < t,
            forall|t: int|
                1 <= t < i ==> (#[trigger] s[first_idx_br(s, s[t].parent->0)]).children.contains(
                    s[t].name,
                ),
            forall|t: int, k: int|
                0 <= t < i && 0 <= k < s[t].children.len()
                    ==> #[trigger] crate::tree::child_entry_ok(s, t, k),
            forall|t: int, k: int, l: int|
                0 <= t < i && 0 <= k < l < s[t].children.len() ==> (#[trigger] s[t].children[k])
                    != (#[trigger] s[t].children[l]),
        decreases n - i,
    {
        let b = &v[i];
        if i >= 1 && (b.parent.is_none() || b.parent_oid_cache.is_none()) {
            return false;
        }
        // each entry must be the first with its name (names unique)
        match find_br(v, b.name.as_str()) {
            Some(j) => {
                if j != i {
                    proof {
                        lemma_first_idx_br(s, s[i as int].name);
                        assert(s[j as int].name == s[i as int].name);
                        assert(!wf_branches(s, trunk@));
                    }
                    return false;
                }
            },
            None => {
                proof {
                    lemma_first_idx_br(s, s[i as int].name);
                    assert(false);
                }
                return false;
            },
        }
        if i >= 1 {
            // the parent must stand strictly earlier
            let parent = match &b.parent {
                Some(p) => p,
                None => {
                    proof {
                        assert(false);
                    }
                    return false;
                },
            };
            match find_br(v, parent.as_str()) {
                Some(pi) => {
                    if pi >= i {
                        proof {
                            assert(first_idx_br(s, s[i as int].parent->0) >= i);
                            assert(!wf_branches(s, trunk@));
                        }
                        return false;
                    }
                    // and list this entry among its children
                    if child_listed(&v[pi].children, b.name.as_str()) {
                    } else {
                        proof {
                            assert(!s[pi as int].children.contains(s[i as int].name));
                            assert(!wf_branches(s, trunk@));
                        }
                        return false;
                    }
                },
                None => {
                    proof {
                        assert(first_idx_br(s, s[i as int].parent->0) == s.len());
                        assert(!wf_branches(s, trunk@));
                    }
                    return false;
                },
            }
        }
        // every listed child must be first of its name in the child list,
        // resolve to an entry, and point back here
        let mut k: usize = 0;
        let cn = b.children.len();
        while k < cn
            invariant
                k <= cn,
                cn == v@[i as int].children@.len(),
                forall|x: int, y: int|
                    0 <= x < y < k ==> (#[trigger] s[i as int].children[x]) != (
                    #[trigger] s[i as int].children[y]),
                forall|x: int|
                    0 <= x < k ==> #[trigger] crate::tree::child_entry_ok(s, i as int, x),
            decreases cn - k,
        {
            let c = &b.children[k];
            proof {
                assert(s[i as int].children[k as int] == v@[i as int].children@[k as int]@);
            }
            proof {
                assert(b.children.deep_view() == s[i as int].children);
            }
            match crate::tree::find_name(&b.children, c.as_str()) {
                Some(j) => {
                    proof {
                        b.children.deep_view().index_of_first_ensures(c@);
                    }
                    if j != k {
                        proof {
                            let dv = v@[i as int].children@.map_values(|x: String| x@);
                            b.children.deep_view().index_of_first_ensures(c@);
                            assert(s[i as int].children[j as int] == c@);
                            assert(j < k) by {
                                if j > k {
                                    assert(b.children.deep_view()[k as int] == c@);
                                }
                            }
                            assert(!wf_branches(s, trunk@));
                        }
                        return false;
                    }
                    proof {
                        // `k` is the first occurrence: nothing before repeats it
                        assert(forall|x: int|
                            0 <= x < k ==> (#[trigger] s[i as int].children[x]) != s[i as int].children[k as int]);
                    }
                },
                None => {
                    proof {
                        b.children.deep_view().index_of_first_ensures(c@);
                        assert(b.children.deep_view()[k as int] == c@);
                        assert(false);
                    }
                    return false;
                },
            }
            match find_br(v, c.as_str()) {
                Some(ci) => {
                    let points_back: bool = match &v[ci].parent {
                        Some(p) => str_eq(p.as_str(), b.name.as_str()),
                        None => false,
                    };
                    if !points_back {
                        proof {
                            assert(!crate::tree::child_entry_ok(s, i as int, k as int));
                            assert(!wf_branches(s, trunk@));
                        }
                        return false;
                    }
                    proof {
                        assert(crate::tree::child_entry_ok(s, i as int, k as int));
                    }
                },
                None => {
                    proof {
                        assert(!crate::tree::child_entry_ok(s, i as int, k as int));
                        assert(!wf_branches(s, trunk@));
                    }
                    return false;
                },
            }
            k = k + 1;
        }
        i = i + 1;
    }
    proof {
        assert forall|t: int, u: int|
            0 <= t < u < s.len() implies (#[trigger] s[t]).name != (#[trigger] s[u]).name by {
            lemma_first_idx_br(s, s[u].name);
            if s[t].name == s[u].name {
                assert(first_idx_br(s, s[u].name) <= t);
            }
        }
        assert(wf_branches(s, trunk@));
    }
    true
}

/// Whether `name` occurs among the child names.
fn child_listed(children: &Vec<String>, name: &str) -> (r: bool)
    ensures
        r == children.deep_view().contains(name@),
{
    let found = crate::tree::find_name(children, name);
    proof {
        children.deep_view().index_of_first_ensures(name@);
    }
    found.is_some()
}

impl StackTree {
    /// Rebuilds a tree from its parts — the active trunk's name and the
    /// trunks with their branch lists — accepting exactly the well-formed
    /// trees. A tree taken apart into these parts is reproduced unchanged;
    /// parts that violate any invariant are rejected with `DecodingError`.
    #[verifier::loop_isolation(false)]
    pub fn from_parts(active_trunk: String, trunks: Vec<TrunkBranches>) -> (r: StResult<
        StackTree,
    >)
        ensures
            ({
                let m = TreeModel {
                    active_trunk: active_trunk@,
                    trunk_name: None,
                    trunks: trunk_models(trunks@),
                    branches: None,
                };
                &&& (m.wf() <==> r is Ok)
                &&& (r matches Ok(t) ==> t@ == m && t@.wf())
                &&& (r matches Err(e) ==> e matches StError::DecodingError(d))
            }),
    {
        let ghost m = TreeModel {
            active_trunk: active_trunk@,
            trunk_name: None,
            trunks: trunk_models(trunks@),
            branches: None,
        };
        if find_tr(&trunks, active_trunk.as_str()).is_none() {
            return Err(StError::DecodingError("the active trunk is not present".to_owned()));
        }
        let n = trunks.len();
        let mut i: usize = 0;
        while i < n
            invariant
                i <= n,
                n == trunks@.len(),
                forall|t: int|
                    0 <= t < i ==> first_idx_tr(m.trunks, (#[trigger] m.trunks[t]).name) == t,
                forall|t: int| 0 <= t < i ==> (#[trigger] m.trunks[t]).wf(),
            decreases n - i,
        {
            match find_tr(&trunks, trunks[i].name.as_str()) {
                Some(j) => {
                    if j != i {
                        proof {
                            crate::tree::lemma_first_idx_tr(m.trunks, m.trunks[i as int].name);
                            assert(m.trunks[j as int].name == m.trunks[i as int].name);
                            assert(!m.wf());
                        }
                        return Err(
                            StError::DecodingError("a trunk name appears twice".to_owned()),
                        );
                    }
                },
                None => {
                    proof {
                        crate::tree::lemma_first_idx_tr(m.trunks, m.trunks[i as int].name);
                        assert(false);
                    }
                    return Err(StError::DecodingError("a trunk name appears twice".to_owned()));
                },
            }
            if !check_branches(&trunks[i].branches, trunks[i].name.as_str()) {
                proof {
                    assert(!m.trunks[i as int].wf());
                    assert(!m.wf());
                }
                return Err(
                    StError::DecodingError("a trunk's branch list is malformed".to_owned()),
                );
            }
            i = i + 1;
        }
        let tree = StackTree { active_trunk, trunk_name: None, trunks, branches: None };
        proof {
            assert(tree@ =~= m);
            assert forall|t: int, u: int|
                0 <= t < u < m.trunks.len() implies (#[trigger] m.trunks[t]).name != (
            #[trigger] m.trunks[u]).name by {
                crate::tree::lemma_first_idx_tr(m.trunks, m.trunks[u].name);
                if m.trunks[t].name == m.trunks[u].name {
                    assert(first_idx_tr(m.trunks, m.trunks[u].name) <= t);
                }
            }
            assert(m.wf());
        }
        Ok(tree)
    }
}

} // verus!
