use st::ai::{build_commits_section, gemini_prompt};
use st::ctx::HeadMap;
use st::errors::StError;
use st::restack::Restacker;
use st::strutil::u64_to_string;
use st::submit::{BranchTask, CommentSyncer, SubmitCmd, Submitter};
use st::tree::{RemoteMetadata, StackTree};

fn heads_of(pairs: &[(&str, &str)]) -> HeadMap {
    let mut h = HeadMap::new();
    for (n, o) in pairs {
        h.push(n.to_string(), o.to_string());
    }
    h
}

#[test]
fn test_restack_rebases_stale_chain_in_order() {
    let mut tree = StackTree::new("main".to_string());
    tree.insert("main", "m0", "a").unwrap();
    tree.insert("a", "a1", "b").unwrap();
    // main has moved from m0 to m1, so `a` is stale; `b` matches `a`'s old
    // head but will become stale once `a` is rebased.
    let heads = heads_of(&[("main", "m1"), ("a", "a1"), ("b", "b1")]);

    let mut eng = Restacker::new(tree, heads).unwrap();

    let req = eng.step().unwrap().unwrap();
    assert_eq!(req.branch, "a");
    assert_eq!(req.upstream, "m0");
    assert_eq!(req.onto, "m1");
    eng.rebased("a2".to_string());

    let req = eng.step().unwrap().unwrap();
    assert_eq!(req.branch, "b");
    assert_eq!(req.upstream, "a1");
    assert_eq!(req.onto, "a2");
    eng.rebased("b2".to_string());

    assert!(eng.step().unwrap().is_none());
    let (tree, rebased_any) = eng.finish();
    assert!(rebased_any);
    assert_eq!(
        tree.get("a").unwrap().parent_oid_cache.as_ref().unwrap(),
        "m1"
    );
    assert_eq!(
        tree.get("b").unwrap().parent_oid_cache.as_ref().unwrap(),
        "a2"
    );
}

#[test]
fn test_restack_second_run_is_noop() {
    let mut tree = StackTree::new("main".to_string());
    tree.insert("main", "m1", "a").unwrap();
    tree.insert("a", "a1", "b").unwrap();
    let heads = heads_of(&[("main", "m1"), ("a", "a1"), ("b", "b1")]);

    let mut eng = Restacker::new(tree, heads).unwrap();
    assert!(eng.step().unwrap().is_none());
    let (_, rebased_any) = eng.finish();
    assert!(!rebased_any);
}

#[test]
fn test_restack_missing_cache_is_corruption() {
    let mut tree = StackTree::new("main".to_string());
    tree.insert("main", "m0", "a").unwrap();
    tree.get_mut("a").unwrap().parent_oid_cache = None;
    let heads = heads_of(&[("main", "m1"), ("a", "a1")]);

    let mut eng = Restacker::new(tree, heads).unwrap();
    match eng.step() {
        Err(StError::MissingParentOidCache) => {}
        other => panic!("expected MissingParentOidCache, got {:?}", other),
    }
}

#[test]
fn test_dirty_preflight_fails_before_any_remote_work() {
    let mut tree = StackTree::new("main".to_string());
    tree.insert("main", "m1", "a").unwrap();
    let heads = heads_of(&[("main", "m1"), ("a", "a1")]);
    let stack = tree.branches().unwrap();

    match tree.check_cleanliness(&stack, &heads, true) {
        Err(StError::WorkingTreeDirty) => {}
        other => panic!("expected WorkingTreeDirty, got {:?}", other),
    }
}

#[test]
fn test_stale_cache_preflight_names_first_stale_branch() {
    let mut tree = StackTree::new("main".to_string());
    tree.insert("main", "m0", "a").unwrap();
    tree.insert("a", "a1", "b").unwrap();
    let heads = heads_of(&[("main", "m1"), ("a", "a1"), ("b", "b1")]);
    let stack = tree.branches().unwrap();

    match tree.check_cleanliness(&stack, &heads, false) {
        Err(StError::NeedsRestack(n)) => assert_eq!(n, "a"),
        other => panic!("expected NeedsRestack, got {:?}", other),
    }
}

#[test]
fn test_clean_preflight_passes() {
    let mut tree = StackTree::new("main".to_string());
    tree.insert("main", "m1", "a").unwrap();
    let heads = heads_of(&[("main", "m1"), ("a", "a1")]);
    let stack = tree.branches().unwrap();
    assert!(tree.check_cleanliness(&stack, &heads, false).is_ok());
}

#[test]
fn test_submit_reparents_pr_after_branch_deletion() {
    // Stack main -> a -> b -> c with open pull requests; the user deletes b.
    let mut tree = StackTree::new("main".to_string());
    tree.insert("main", "m1", "a").unwrap();
    tree.insert("a", "a1", "b").unwrap();
    tree.insert("b", "b1", "c").unwrap();
    tree.get_mut("a").unwrap().remote = Some(RemoteMetadata::new(1));
    tree.get_mut("b").unwrap().remote = Some(RemoteMetadata::new(2));
    tree.get_mut("c").unwrap().remote = Some(RemoteMetadata::new(3));
    tree.delete("b").unwrap();

    let stack = tree.branches().unwrap();
    assert_eq!(stack, vec!["main", "a", "c"]);
    let heads = heads_of(&[("main", "m1"), ("a", "ha"), ("c", "hc")]);
    let mut eng = Submitter::new(tree, stack, heads, false).unwrap();

    // `a` is current: its pull request already has base `main` and head `ha`.
    match eng.next_task().unwrap() {
        BranchTask::Existing { number } => assert_eq!(number, 1),
        other => panic!("expected existing-PR task, got {:?}", other),
    }
    let order = eng.existing("main".to_string(), "ha".to_string());
    assert!(order.update_base.is_none());
    assert!(order.push.is_none());

    // `c`'s pull request still has base `b`: it is re-targeted to `a`
    // before the branch is pushed.
    match eng.next_task().unwrap() {
        BranchTask::Existing { number } => assert_eq!(number, 3),
        other => panic!("expected existing-PR task, got {:?}", other),
    }
    let order = eng.existing("b".to_string(), "old".to_string());
    assert_eq!(order.update_base.as_deref(), Some("a"));
    assert_eq!(order.push.as_deref(), Some("c"));

    assert!(eng.next_task().is_none());
    let (_, prs) = eng.finish();
    let rec = prs.iter().find(|p| p.branch == "c").unwrap();
    assert_eq!(rec.base, "a");
    assert_eq!(rec.head, "hc");
}

#[test]
fn test_submit_new_pr_requires_base_on_remote() {
    let mut tree = StackTree::new("main".to_string());
    tree.insert("main", "m1", "a").unwrap();
    let stack = tree.branches().unwrap();
    let heads = heads_of(&[("main", "m1"), ("a", "ha")]);
    let mut eng = Submitter::new(tree, stack, heads, false).unwrap();

    match eng.next_task().unwrap() {
        BranchTask::New { parent } => assert_eq!(parent, "main"),
        other => panic!("expected new-PR task, got {:?}", other),
    }
    // The parent is not on the remote: nothing is pushed or created.
    match eng.new_checked(false) {
        Err(StError::BaseBranchNotOnRemote(p)) => assert_eq!(p, "main"),
        other => panic!("expected BaseBranchNotOnRemote, got {:?}", other),
    }
}

#[test]
fn test_submit_creates_pr_and_records_number() {
    let mut tree = StackTree::new("main".to_string());
    tree.insert("main", "m1", "a").unwrap();
    let stack = tree.branches().unwrap();
    let heads = heads_of(&[("main", "m1"), ("a", "ha")]);
    let mut eng = Submitter::new(tree, stack, heads, false).unwrap();

    assert!(matches!(
        eng.next_task().unwrap(),
        BranchTask::New { .. }
    ));
    let to_push = eng.new_checked(true).unwrap();
    assert_eq!(to_push, "a");
    eng.created(42);
    assert!(eng.next_task().is_none());

    let (tree, prs) = eng.finish();
    let meta = tree.get("a").unwrap().remote.unwrap();
    assert_eq!(meta.pr_number, 42);
    assert!(meta.comment_id.is_none());
    let rec = prs.iter().find(|p| p.branch == "a").unwrap();
    assert_eq!(rec.number, 42);
    assert_eq!(rec.base, "main");
    assert_eq!(rec.head, "ha");
}

#[test]
fn test_render_pr_comment_exact() {
    let mut tree = StackTree::new("main".to_string());
    tree.insert("main", "m1", "a").unwrap();
    tree.insert("a", "a1", "b").unwrap();
    tree.get_mut("a").unwrap().remote = Some(RemoteMetadata::new(1));
    tree.get_mut("b").unwrap().remote = Some(RemoteMetadata::new(2));
    let stack = tree.branches().unwrap();

    let comment = SubmitCmd::render_pr_comment(&tree, "b", &stack).unwrap();
    let expected = "## 📚 $\\text{Stack Overview}$\n\nPulls submitted in this stack:\n* #2 👈\n* #1\n* `main`\n\n_This comment was automatically generated by [`st`](https://github.com/mahbd/st)._";
    assert_eq!(comment, expected);
}

#[test]
fn test_render_pr_comment_skips_unsubmitted_branches() {
    let mut tree = StackTree::new("main".to_string());
    tree.insert("main", "m1", "a").unwrap();
    tree.insert("a", "a1", "b").unwrap();
    tree.get_mut("b").unwrap().remote = Some(RemoteMetadata::new(9));
    let stack = tree.branches().unwrap();

    let comment = SubmitCmd::render_pr_comment(&tree, "a", &stack).unwrap();
    assert!(comment.contains("* #9\n"));
    assert!(!comment.contains("#1"));
    assert!(!comment.contains("👈"));
}

#[test]
fn test_comment_sync_creates_and_updates() {
    let mut tree = StackTree::new("main".to_string());
    tree.insert("main", "m1", "a").unwrap();
    tree.insert("a", "a1", "b").unwrap();
    tree.get_mut("a").unwrap().remote = Some(RemoteMetadata {
        pr_number: 1,
        comment_id: Some(77),
    });
    tree.get_mut("b").unwrap().remote = Some(RemoteMetadata::new(2));
    let stack = tree.branches().unwrap();

    let mut sync = CommentSyncer::new(tree, stack, "b".to_string()).unwrap();

    // `a` already has a stack-overview comment: it is updated in place.
    let task = sync.next_comment().unwrap().unwrap();
    assert_eq!(task.number, 1);
    assert_eq!(task.comment_id, Some(77));
    assert!(task.body.contains("Stack Overview"));
    sync.comment_done();

    // `b` has none yet: one is created and its id recorded.
    let task = sync.next_comment().unwrap().unwrap();
    assert_eq!(task.number, 2);
    assert_eq!(task.comment_id, None);
    sync.comment_created(500);

    assert!(sync.next_comment().unwrap().is_none());
    let tree = sync.finish();
    assert_eq!(
        tree.get("b").unwrap().remote.unwrap().comment_id,
        Some(500)
    );
    assert_eq!(tree.get("a").unwrap().remote.unwrap().comment_id, Some(77));
}

#[test]
fn test_discover_stack_chain_and_subtree() {
    let mut tree = StackTree::new("main".to_string());
    tree.insert("main", "m1", "a").unwrap();
    tree.insert("a", "a1", "b").unwrap();
    tree.insert("main", "m1", "x").unwrap();

    assert_eq!(tree.discover_stack("a").unwrap(), vec!["main", "a", "b"]);
    assert_eq!(tree.discover_stack("x").unwrap(), vec!["main", "x"]);
    assert_eq!(
        tree.discover_stack("main").unwrap(),
        vec!["main", "a", "b", "x"]
    );
    assert!(tree.discover_stack("missing").is_err());
}

#[test]
fn test_prune_branch_deletes_only_confirmed_closed() {
    let mut tree = StackTree::new("main".to_string());
    tree.insert("main", "m1", "a").unwrap();
    tree.insert("main", "m1", "b").unwrap();

    assert!(!tree.prune_branch("a", true, false).unwrap());
    assert!(tree.get("a").is_some());
    assert!(!tree.prune_branch("a", false, true).unwrap());
    assert!(tree.get("a").is_some());
    assert!(tree.prune_branch("a", true, true).unwrap());
    assert!(tree.get("a").is_none());
    assert!(tree.get("b").is_some());
}

#[test]
fn test_head_map_lookup_and_shadowing() {
    let mut h = HeadMap::new();
    h.push("main".to_string(), "m1".to_string());
    h.push("a".to_string(), "a1".to_string());
    assert_eq!(h.get("main").unwrap(), "m1");
    assert_eq!(h.get("a").unwrap(), "a1");
    assert!(h.get("zzz").is_none());

    h.set("a".to_string(), "a2".to_string());
    assert_eq!(h.get("a").unwrap(), "a2");
    assert_eq!(h.get("main").unwrap(), "m1");
}

#[test]
fn test_build_commits_section_exact() {
    assert_eq!(build_commits_section(&vec![]), "");
    let commits = vec!["first change".to_string(), "second change".to_string()];
    assert_eq!(
        build_commits_section(&commits),
        "\n\nCommit messages:\n- first change\n- second change\n"
    );
}

#[test]
fn test_gemini_prompt_carries_all_inputs() {
    let commits = vec!["add parser".to_string()];
    let prompt = gemini_prompt("My title", "feat", "main", &commits, "diff text");
    assert!(prompt.starts_with(
        "You are a technical writer creating a pull request description.\n\nPR Title: My title\nBranch: feat -> main"
    ));
    assert!(prompt.contains("\n\nCommit messages:\n- add parser\n"));
    assert!(prompt.contains("```\ndiff text\n```"));
    assert!(prompt.ends_with("Generate the description now:"));
}

#[test]
fn test_u64_to_string_exact() {
    assert_eq!(u64_to_string(0), "0");
    assert_eq!(u64_to_string(7), "7");
    assert_eq!(u64_to_string(907), "907");
    assert_eq!(u64_to_string(18446744073709551615), "18446744073709551615");
}
