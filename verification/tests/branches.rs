use chronicle::branches::manager::MAIN_BRANCH;
use chronicle::types::{BranchId, Sequence};
use chronicle::{Branch, BranchGcOptions, BranchIndex, BranchManager, StoreError, Timestamp};

#[test]
fn test_new_has_main_branch() {
    let manager = BranchManager::new();

    let main = manager.get_branch(MAIN_BRANCH).unwrap();
    assert_eq!(main.name, MAIN_BRANCH);
    assert_eq!(main.head, Sequence(0));
    assert!(main.parent.is_none());
}

#[test]
fn test_create_branch() {
    let mut manager = BranchManager::new();

    // Update main head first
    manager.update_head(BranchId(1), Sequence(10)).unwrap();

    // Create branch from main
    let branch = manager.create_branch("feature", None).unwrap();
    assert_eq!(branch.name, "feature");
    assert_eq!(branch.head, Sequence(10));
    assert_eq!(branch.parent, Some(BranchId(1)));
    assert_eq!(branch.branch_point, Some(Sequence(10)));
}

#[test]
fn test_create_branch_at_sequence() {
    let mut manager = BranchManager::new();

    // Update main head
    manager.update_head(BranchId(1), Sequence(20)).unwrap();

    // Create branch at specific sequence
    let branch = manager.create_branch_at("hotfix", MAIN_BRANCH, Sequence(15)).unwrap();
    assert_eq!(branch.name, "hotfix");
    assert_eq!(branch.head, Sequence(15));
    assert_eq!(branch.branch_point, Some(Sequence(15)));
}

#[test]
fn test_branch_already_exists() {
    let mut manager = BranchManager::new();

    manager.create_branch("feature", None).unwrap();
    let result = manager.create_branch("feature", None);
    assert!(matches!(result, Err(StoreError::BranchExists(_))));
}

#[test]
fn test_switch_branch() {
    let mut manager = BranchManager::new();

    manager.create_branch("feature", None).unwrap();

    let current = manager.current_branch().unwrap();
    assert_eq!(current.name, MAIN_BRANCH);

    manager.switch_branch("feature").unwrap();

    let current = manager.current_branch().unwrap();
    assert_eq!(current.name, "feature");
}

#[test]
fn test_list_branches() {
    let mut manager = BranchManager::new();

    manager.create_branch("feature1", None).unwrap();
    manager.create_branch("feature2", None).unwrap();

    let branches = manager.list_branches();
    assert_eq!(branches.len(), 3); // main + 2 features
}

#[test]
fn test_delete_branch() {
    let mut manager = BranchManager::new();

    manager.create_branch("feature", None).unwrap();
    assert_eq!(manager.branch_count(), 2);

    manager.delete_branch("feature").unwrap();
    assert_eq!(manager.branch_count(), 1);

    assert!(manager.get_branch("feature").is_none());
}

#[test]
fn test_cannot_delete_main() {
    let mut manager = BranchManager::new();

    let result = manager.delete_branch(MAIN_BRANCH);
    assert!(result.is_err());
}

#[test]
fn test_cannot_delete_current() {
    let mut manager = BranchManager::new();

    manager.create_branch("feature", None).unwrap();
    manager.switch_branch("feature").unwrap();

    let result = manager.delete_branch("feature");
    assert!(result.is_err());
}

#[test]
fn test_get_ancestry() {
    let mut manager = BranchManager::new();

    manager.create_branch("feature", None).unwrap();
    manager.create_branch("sub-feature", Some("feature")).unwrap();

    let ancestry = manager.get_ancestry("sub-feature").unwrap();
    assert_eq!(ancestry.len(), 3);
    assert_eq!(ancestry[0].name, "sub-feature");
    assert_eq!(ancestry[1].name, "feature");
    assert_eq!(ancestry[2].name, MAIN_BRANCH);
}

fn saved(manager: &BranchManager) -> (BranchIndex, BranchId) {
    let index = manager.branch_index();
    (BranchIndex { branches: index.branches.to_vec(), next_id: index.next_id }, manager.current_id())
}

#[test]
fn manager_test_persistence() {
    let mut manager = BranchManager::new();
    manager.update_head(BranchId(1), Sequence(5)).unwrap();
    manager.create_branch("feature", None).unwrap();
    manager.switch_branch("feature").unwrap();
    let (index, current) = saved(&manager);

    // Load and verify
    let manager = BranchManager::load(index, current).unwrap();

    let current = manager.current_branch().unwrap();
    assert_eq!(current.name, "feature");

    let branches = manager.list_branches();
    assert_eq!(branches.len(), 2);

    let main = manager.get_branch(MAIN_BRANCH).unwrap();
    assert_eq!(main.head, Sequence(5));
}

#[test]
fn test_update_head() {
    let mut manager = BranchManager::new();

    manager.update_head(BranchId(1), Sequence(100)).unwrap();

    let main = manager.get_branch(MAIN_BRANCH).unwrap();
    assert_eq!(main.head, Sequence(100));
}

#[test]
fn test_get_empty_branches() {
    let mut manager = BranchManager::new();

    // Create branches
    manager.create_branch("empty1", None).unwrap();
    manager.create_branch("empty2", None).unwrap();

    // Update one to have commits
    let branch = manager.get_branch("empty1").unwrap();
    manager.update_head(branch.id, Sequence(5)).unwrap();

    // Only empty2 should be considered empty
    let empty = manager.get_empty_branches();
    assert_eq!(empty.len(), 1);
    assert_eq!(empty[0].name, "empty2");
}

#[test]
fn test_gc_empty_branches() {
    let mut manager = BranchManager::new();

    // Create empty branches
    manager.create_branch("empty1", None).unwrap();
    manager.create_branch("empty2", None).unwrap();
    manager.create_branch("used", None).unwrap();

    // Make "used" have commits
    let used_branch = manager.get_branch("used").unwrap();
    manager.update_head(used_branch.id, Sequence(10)).unwrap();

    assert_eq!(manager.branch_count(), 4);

    // GC empty branches
    let result = manager.gc(BranchGcOptions { delete_empty: true, ..Default::default() });

    assert_eq!(result.deleted.len(), 2);
    assert!(result.deleted.contains(&"empty1".to_string()));
    assert!(result.deleted.contains(&"empty2".to_string()));
    assert_eq!(manager.branch_count(), 2); // main + used
}

#[test]
fn test_gc_with_reparenting() {
    let mut manager = BranchManager::new();

    // Create hierarchy: main -> feature -> sub-feature
    manager.create_branch("feature", None).unwrap();
    manager.create_branch("sub-feature", Some("feature")).unwrap();

    // GC feature with reparenting to main
    let result = manager.gc(BranchGcOptions {
        delete_empty: true,
        force: true,
        reparent_to: Some(MAIN_BRANCH.to_string()),
        ..Default::default()
    });

    // Both should be deleted since both are empty, but feature first
    // sub-feature gets reparented to main, then deleted too
    assert!(result.deleted.len() >= 1);

    // sub-feature should now have main as parent (or be deleted)
    let remaining = manager.list_branches();
    for branch in &remaining {
        if branch.name != MAIN_BRANCH {
            // Any remaining non-main branch should have main as parent
            assert_eq!(branch.parent, Some(BranchId(1)));
        }
    }
}

#[test]
fn test_can_delete() {
    let mut manager = BranchManager::new();

    // Cannot delete main
    assert!(!manager.can_delete(MAIN_BRANCH, false));

    // Create branches
    manager.create_branch("feature", None).unwrap();
    manager.create_branch("child", Some("feature")).unwrap();

    // Cannot delete feature without force (has child)
    assert!(!manager.can_delete("feature", false));

    // Can delete feature with force
    assert!(manager.can_delete("feature", true));

    // Can delete child (no children)
    assert!(manager.can_delete("child", false));

    // Switch to feature - cannot delete current
    manager.switch_branch("feature").unwrap();
    assert!(!manager.can_delete("feature", true));
}

#[test]
fn test_gc_with_patterns() {
    let mut manager = BranchManager::new();

    // Create branches with different names
    manager.create_branch("feature-123", None).unwrap();
    manager.create_branch("feature-456", None).unwrap();
    manager.create_branch("hotfix-789", None).unwrap();

    // GC only feature branches
    let result = manager.gc(BranchGcOptions {
        delete_empty: true,
        name_patterns: Some(vec!["feature".to_string()]),
        ..Default::default()
    });

    assert_eq!(result.deleted.len(), 2);
    assert!(result.deleted.iter().all(|n| n.contains("feature")));

    // hotfix should still exist
    assert!(manager.get_branch("hotfix-789").is_some());
}

#[test]
fn test_is_visible_on_main() {
    let mut mgr = BranchManager::new();

    // Advance main branch head
    let main_id = mgr.current_branch().unwrap().id;
    mgr.update_head(main_id, Sequence(5)).unwrap();

    assert!(mgr.is_visible("main", Sequence(1)).unwrap());
    assert!(mgr.is_visible("main", Sequence(5)).unwrap());
    assert!(!mgr.is_visible("main", Sequence(6)).unwrap());
}

#[test]
fn test_is_visible_beyond_head_false() {
    let mgr = BranchManager::new();

    assert!(!mgr.is_visible("main", Sequence(999)).unwrap());
}

#[test]
fn test_is_visible_nonexistent_branch() {
    let mgr = BranchManager::new();

    assert!(mgr.is_visible("ghost", Sequence(1)).is_err());
}

#[test]
fn test_is_visible_child_branch() {
    let mut mgr = BranchManager::new();

    let main_id = mgr.current_branch().unwrap().id;
    mgr.update_head(main_id, Sequence(5)).unwrap();
    mgr.create_branch("child", None).unwrap();
    let child = mgr.get_branch("child").unwrap().id;
    mgr.update_head(child, Sequence(8)).unwrap();

    // Child sees up to its head
    assert!(mgr.is_visible("child", Sequence(3)).unwrap());
    assert!(mgr.is_visible("child", Sequence(8)).unwrap());
    assert!(!mgr.is_visible("child", Sequence(9)).unwrap());
}

#[test]
fn test_no_orphans_initially() {
    let mut mgr = BranchManager::new();

    mgr.create_branch("child", None).unwrap();
    assert!(mgr.get_orphaned_branches().is_empty());
}

#[test]
fn test_stale_branches_far_future() {
    let mut mgr = BranchManager::new();

    mgr.create_branch("old1", None).unwrap();
    mgr.create_branch("old2", None).unwrap();

    let far_future = (Timestamp::now().0 as u64) + 1_000_000;
    let stale = mgr.get_stale_branches(far_future);

    let names: Vec<&str> = stale.iter().map(|b| b.name.as_str()).collect();
    assert!(names.contains(&"old1"));
    assert!(names.contains(&"old2"));
    assert!(!names.contains(&"main"), "Main should never be stale");
}

#[test]
fn test_stale_branches_past_timestamp() {
    let mut mgr = BranchManager::new();

    mgr.create_branch("fresh", None).unwrap();
    let stale = mgr.get_stale_branches(0);
    assert!(stale.is_empty(), "Nothing stale with timestamp=0");
}

#[test]
fn test_get_child_branches() {
    let mut mgr = BranchManager::new();

    mgr.create_branch("child1", None).unwrap();
    mgr.create_branch("child2", None).unwrap();
    mgr.create_branch("grandchild", Some("child1")).unwrap();

    let main_id = mgr.current_branch().unwrap().id;
    let children = mgr.get_child_branches(main_id);
    let names: Vec<&str> = children.iter().map(|b| b.name.as_str()).collect();

    assert_eq!(names.len(), 2);
    assert!(names.contains(&"child1"));
    assert!(names.contains(&"child2"));
    assert!(!names.contains(&"grandchild"));
}

#[test]
fn test_get_child_branches_leaf() {
    let mut mgr = BranchManager::new();

    mgr.create_branch("leaf", None).unwrap();
    let leaf = mgr.get_branch("leaf").unwrap();
    assert!(mgr.get_child_branches(leaf.id).is_empty());
}

#[test]
fn test_delete_with_reparent() {
    let mut mgr = BranchManager::new();

    mgr.create_branch("parent", None).unwrap();
    mgr.create_branch("child", Some("parent")).unwrap();

    let reparented = mgr.delete_branch_with_reparent("parent", Some("main")).unwrap();
    assert_eq!(reparented, 1);

    // child should still exist
    assert!(mgr.get_branch("child").is_some());
    // parent should be gone
    assert!(mgr.get_branch("parent").is_none());
}

#[test]
fn test_delete_with_reparent_orphans() {
    let mut mgr = BranchManager::new();

    mgr.create_branch("doomed", None).unwrap();
    mgr.create_branch("orphan1", Some("doomed")).unwrap();
    mgr.create_branch("orphan2", Some("doomed")).unwrap();

    let reparented = mgr.delete_branch_with_reparent("doomed", None).unwrap();
    assert_eq!(reparented, 2);
}

#[test]
fn test_gc_deletes_empty_branches() {
    let mut mgr = BranchManager::new();

    // Create empty branches
    mgr.create_branch("empty1", None).unwrap();
    mgr.create_branch("empty2", None).unwrap();

    // Create a "non-empty" branch (advance its head past branch point)
    mgr.create_branch("active", None).unwrap();
    let active = mgr.get_branch("active").unwrap();
    mgr.update_head(active.id, Sequence(active.head.0 + 1)).unwrap();

    let result = mgr.gc(BranchGcOptions {
        delete_empty: true,
        ..Default::default()
    });

    assert!(result.deleted.contains(&"empty1".to_string()));
    assert!(result.deleted.contains(&"empty2".to_string()));
    assert!(!result.deleted.contains(&"active".to_string()));
    assert!(!result.deleted.contains(&"main".to_string()));
}

#[test]
fn test_gc_with_name_patterns() {
    let mut mgr = BranchManager::new();

    mgr.create_branch("temp/a", None).unwrap();
    mgr.create_branch("temp/b", None).unwrap();
    mgr.create_branch("keep/c", None).unwrap();

    let result = mgr.gc(BranchGcOptions {
        delete_empty: true,
        name_patterns: Some(vec!["temp/".to_string()]),
        ..Default::default()
    });

    assert_eq!(result.deleted.len(), 2);
    assert!(!result.deleted.contains(&"keep/c".to_string()));
}

#[test]
fn test_gc_stale() {
    let mut mgr = BranchManager::new();

    mgr.create_branch("old", None).unwrap();

    let far_future = (Timestamp::now().0 as u64) + 1_000_000;
    let result = mgr.gc(BranchGcOptions {
        delete_stale_older_than: Some(far_future),
        ..Default::default()
    });

    assert!(result.deleted.contains(&"old".to_string()));
}

fn branch(id: u64, name: &str, parent: Option<u64>) -> Branch {
    Branch {
        id: BranchId(id),
        name: name.to_string(),
        head: Sequence(0),
        parent: parent.map(BranchId),
        branch_point: parent.map(|_| Sequence(0)),
        created: Timestamp(1),
    }
}

#[test]
fn branch_point_must_lie_on_the_parent() {
    let mut mgr = BranchManager::new();
    mgr.update_head(BranchId(1), Sequence(4)).unwrap();
    assert!(matches!(
        mgr.create_branch_at("later", "main", Sequence(5)),
        Err(StoreError::InvalidSequence(Sequence(5), Sequence(4)))
    ));
    assert!(matches!(mgr.create_branch_at("x", "ghost", Sequence(0)), Err(StoreError::BranchNotFound(_))));
    assert!(matches!(mgr.create_branch("x", Some("ghost")), Err(StoreError::BranchNotFound(_))));
    assert_eq!(mgr.branch_count(), 1);
}

#[test]
fn refused_requests_change_nothing() {
    let mut mgr = BranchManager::new();
    mgr.create_branch("a", None).unwrap();
    assert!(matches!(mgr.delete_branch("ghost"), Err(StoreError::BranchNotFound(_))));
    assert!(matches!(mgr.delete_branch("main"), Err(StoreError::BranchNotFound(_))));
    assert!(matches!(mgr.switch_branch("ghost"), Err(StoreError::BranchNotFound(_))));
    assert_eq!(mgr.branch_count(), 2);
    assert_eq!(mgr.current_branch().unwrap().name, "main");
}

#[test]
fn orphans_are_found_and_collected() {
    let index = BranchIndex { branches: vec![branch(1, "main", None), branch(3, "lost", Some(2))], next_id: 4 };
    let mut mgr = BranchManager::load(index, BranchId(1)).unwrap();
    let names: Vec<String> = mgr.get_orphaned_branches().into_iter().map(|b| b.name).collect();
    assert_eq!(names, vec!["lost".to_string()]);
    let result = mgr.gc(BranchGcOptions { delete_orphaned: true, ..Default::default() });
    assert_eq!(result.deleted, vec!["lost".to_string()]);
    assert_eq!(mgr.branch_count(), 1);
}

#[test]
fn inconsistent_index_is_refused() {
    let index = BranchIndex { branches: vec![branch(1, "main", None), branch(2, "main", None)], next_id: 3 };
    assert!(BranchManager::load(index, BranchId(1)).is_err());
}

#[test]
fn collection_skips_branches_with_children() {
    let mut mgr = BranchManager::new();
    mgr.create_branch("parent", None).unwrap();
    mgr.create_branch("child", Some("parent")).unwrap();
    let child = mgr.get_branch("child").unwrap().id;
    mgr.update_head(child, Sequence(3)).unwrap();
    let result = mgr.gc(BranchGcOptions { delete_empty: true, ..Default::default() });
    assert!(result.deleted.is_empty());
    assert_eq!(result.skipped, vec!["parent".to_string()]);
    assert_eq!(result.reparented, 0);
}

#[test]
fn children_of_a_deleted_branch_are_orphans() {
    let mut manager = BranchManager::new();
    manager.create_branch("doomed", None).unwrap();
    manager.create_branch("one", Some("doomed")).unwrap();
    manager.create_branch("two", Some("doomed")).unwrap();
    manager.create_branch("other", None).unwrap();
    assert!(manager.get_orphaned_branches().is_empty());
    assert_eq!(manager.delete_branch_with_reparent("doomed", None).unwrap(), 2);
    let orphans = manager.get_orphaned_branches();
    let mut names: Vec<&str> = orphans.iter().map(|b| b.name.as_str()).collect();
    names.sort();
    assert_eq!(names, vec!["one", "two"]);
}

#[test]
fn every_branch_is_older_than_the_end_of_time() {
    let mut manager = BranchManager::new();
    manager.create_branch("old", None).unwrap();
    let names: Vec<String> = manager.get_stale_branches(u64::MAX).iter().map(|b| b.name.clone()).collect();
    assert_eq!(names, vec!["old"]);
}

#[test]
fn updated_branches_are_not_stale() {
    let mut manager = BranchManager::new();
    manager.create_branch("unused", None).unwrap();
    let used = manager.create_branch("used", None).unwrap();
    manager.update_head(used.id, Sequence(used.head.0 + 1)).unwrap();
    let names: Vec<String> = manager.get_stale_branches(u64::MAX).iter().map(|b| b.name.clone()).collect();
    assert_eq!(names, vec!["unused"]);
    let result = manager.gc(BranchGcOptions { delete_stale_older_than: Some(u64::MAX), ..Default::default() });
    assert_eq!(result.deleted, vec!["unused"]);
    assert!(manager.get_branch("used").is_some());
}
