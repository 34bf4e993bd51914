use overseer::error::{NotReadyReason, OsError};
use overseer::store::Store;
use overseer::types::CreateTaskInput;
use overseer::vcs::{
    CommitResult, DiffEntry, LogEntry, VcsBackend, VcsError, VcsStatus, VcsType,
};
use overseer::workflow::TaskWorkflowService;

type VcsResult<T> = Result<T, VcsError>;

/// A backend for tests: every operation succeeds and changes nothing.
struct MockVcsBackend;

impl VcsBackend for MockVcsBackend {
    fn vcs_type(&self) -> VcsType {
        VcsType::Git
    }
    fn root(&self) -> String {
        "/mock".to_string()
    }
    fn status(&self) -> VcsResult<VcsStatus> {
        Ok(VcsStatus {
            files: vec![],
            working_copy_id: Some("mock-commit".to_string()),
        })
    }
    fn log(&self, _limit: usize) -> VcsResult<Vec<LogEntry>> {
        Ok(vec![])
    }
    fn diff(&self, _base: Option<&str>) -> VcsResult<Vec<DiffEntry>> {
        Ok(vec![])
    }
    fn commit(&self, message: &str) -> VcsResult<CommitResult> {
        Ok(CommitResult {
            id: "mock-commit-id".to_string(),
            message: message.to_string(),
        })
    }
    fn current_commit_id(&self) -> VcsResult<String> {
        Ok("mock-commit-id".to_string())
    }
    fn create_bookmark(&self, _name: &str, _target: Option<&str>) -> VcsResult<()> {
        Ok(())
    }
    fn delete_bookmark(&self, _name: &str) -> VcsResult<()> {
        Ok(())
    }
    fn list_bookmarks(&self, _prefix: Option<&str>) -> VcsResult<Vec<String>> {
        Ok(vec![])
    }
    fn checkout(&self, _target: &str) -> VcsResult<()> {
        Ok(())
    }
    fn squash(&self, message: &str) -> VcsResult<CommitResult> {
        Ok(CommitResult {
            id: "mock-commit-id".to_string(),
            message: message.to_string(),
        })
    }
    fn rebase_onto(&self, _target: &str) -> VcsResult<()> {
        Ok(())
    }
    fn is_clean(&self) -> VcsResult<bool> {
        overseer::vcs::status_is_clean(self.status())
    }
}

#[test]
fn test_start_records_vcs_state() {
    let mut service = TaskWorkflowService::new(Store::new(), MockVcsBackend);

    let task = service
        .task_service
        .create(&CreateTaskInput {
            description: "Test task".to_string(),
            context: None,
            parent_id: None,
            priority: None,
            blocked_by: vec![],
        })
        .unwrap();

    let started = service.start(&task.id).unwrap();
    assert!(started.started_at.is_some());
    assert!(started.bookmark.is_some());
    assert!(started.start_commit.is_some());
}

#[test]
fn test_complete_updates_state() {
    let mut service = TaskWorkflowService::new(Store::new(), MockVcsBackend);

    let task = service
        .task_service
        .create(&CreateTaskInput {
            description: "Test task".to_string(),
            context: None,
            parent_id: None,
            priority: None,
            blocked_by: vec![],
        })
        .unwrap();

    let completed = service.complete(&task.id, Some("Done")).unwrap();
    assert!(completed.completed);
    assert_eq!(completed.result, Some("Done".to_string()));
}

#[test]
fn test_start_cascades_to_deepest_leaf() {
    let mut service = TaskWorkflowService::new(Store::new(), MockVcsBackend);

    // Create: milestone -> task -> subtask
    let milestone = service.task_service
        .create(&CreateTaskInput {
            description: "Milestone".to_string(),
            context: None,
            parent_id: None,
            priority: Some(0),
            blocked_by: vec![],
        })
        .unwrap();

    let task = service.task_service
        .create(&CreateTaskInput {
            description: "Task".to_string(),
            context: None,
            parent_id: Some(milestone.id.clone()),
            priority: Some(0),
            blocked_by: vec![],
        })
        .unwrap();

    let subtask = service.task_service
        .create(&CreateTaskInput {
            description: "Subtask".to_string(),
            context: None,
            parent_id: Some(task.id.clone()),
            priority: Some(0),
            blocked_by: vec![],
        })
        .unwrap();

    // Starting milestone should cascade to subtask
    let started = service.start_follow_blockers(&milestone.id).unwrap();
    assert_eq!(started.id, subtask.id);
    assert!(started.started_at.is_some());
}

#[test]
fn test_start_follows_blockers_to_startable() {
    let mut service = TaskWorkflowService::new(Store::new(), MockVcsBackend);

    // Create: blocker_task, blocked_milestone -> task
    let blocker_task = service.task_service
        .create(&CreateTaskInput {
            description: "Blocker task".to_string(),
            context: None,
            parent_id: None,
            priority: Some(0),
            blocked_by: vec![],
        })
        .unwrap();

    let blocked_milestone = service.task_service
        .create(&CreateTaskInput {
            description: "Blocked milestone".to_string(),
            context: None,
            parent_id: None,
            priority: Some(0),
            blocked_by: vec![blocker_task.id.clone()],
        })
        .unwrap();

    let _task = service.task_service
        .create(&CreateTaskInput {
            description: "Task under blocked milestone".to_string(),
            context: None,
            parent_id: Some(blocked_milestone.id.clone()),
            priority: Some(0),
            blocked_by: vec![],
        })
        .unwrap();

    // Starting blocked_milestone should follow blocker and start blocker_task
    let started = service
        .start_follow_blockers(&blocked_milestone.id)
        .unwrap();
    assert_eq!(started.id, blocker_task.id);
    assert!(started.started_at.is_some());
}

#[test]
fn test_complete_bubbles_up_to_parent() {
    let mut service = TaskWorkflowService::new(Store::new(), MockVcsBackend);

    // Create: milestone -> task -> subtask1, subtask2
    let milestone = service.task_service
        .create(&CreateTaskInput {
            description: "Milestone".to_string(),
            context: None,
            parent_id: None,
            priority: Some(0),
            blocked_by: vec![],
        })
        .unwrap();

    let task = service.task_service
        .create(&CreateTaskInput {
            description: "Task".to_string(),
            context: None,
            parent_id: Some(milestone.id.clone()),
            priority: Some(0),
            blocked_by: vec![],
        })
        .unwrap();

    let subtask1 = service.task_service
        .create(&CreateTaskInput {
            description: "Subtask 1".to_string(),
            context: None,
            parent_id: Some(task.id.clone()),
            priority: Some(0),
            blocked_by: vec![],
        })
        .unwrap();

    let subtask2 = service.task_service
        .create(&CreateTaskInput {
            description: "Subtask 2".to_string(),
            context: None,
            parent_id: Some(task.id.clone()),
            priority: Some(0),
            blocked_by: vec![],
        })
        .unwrap();

    // Complete first subtask - task should NOT be auto-completed
    service.complete(&subtask1.id, None).unwrap();
    let task_after = service.task_service.get(&task.id).unwrap();
    assert!(!task_after.completed);

    // Complete second subtask - task SHOULD be auto-completed
    service.complete(&subtask2.id, None).unwrap();
    let task_after = service.task_service.get(&task.id).unwrap();
    assert!(task_after.completed);
}

#[test]
fn test_complete_bubbles_up_to_milestone() {
    let mut service = TaskWorkflowService::new(Store::new(), MockVcsBackend);

    // Create: milestone -> task (single task, no siblings)
    let milestone = service.task_service
        .create(&CreateTaskInput {
            description: "Milestone".to_string(),
            context: None,
            parent_id: None,
            priority: Some(0),
            blocked_by: vec![],
        })
        .unwrap();

    let task = service.task_service
        .create(&CreateTaskInput {
            description: "Task".to_string(),
            context: None,
            parent_id: Some(milestone.id.clone()),
            priority: Some(0),
            blocked_by: vec![],
        })
        .unwrap();

    // Complete task - milestone should auto-complete
    service.complete(&task.id, None).unwrap();

    let milestone_after = service.task_service.get(&milestone.id).unwrap();
    assert!(milestone_after.completed);
}

#[test]
fn test_complete_stops_at_blocked_parent() {
    let mut service = TaskWorkflowService::new(Store::new(), MockVcsBackend);

    // Create: blocker, milestone (blocked by blocker) -> task
    let blocker = service.task_service
        .create(&CreateTaskInput {
            description: "Blocker".to_string(),
            context: None,
            parent_id: None,
            priority: Some(0),
            blocked_by: vec![],
        })
        .unwrap();

    let milestone = service.task_service
        .create(&CreateTaskInput {
            description: "Blocked milestone".to_string(),
            context: None,
            parent_id: None,
            priority: Some(0),
            blocked_by: vec![blocker.id.clone()],
        })
        .unwrap();

    let task = service.task_service
        .create(&CreateTaskInput {
            description: "Task".to_string(),
            context: None,
            parent_id: Some(milestone.id.clone()),
            priority: Some(0),
            blocked_by: vec![],
        })
        .unwrap();

    // Complete task - milestone should NOT auto-complete (it's blocked)
    service.complete(&task.id, None).unwrap();

    let milestone_after = service.task_service.get(&milestone.id).unwrap();
    assert!(!milestone_after.completed);
}

#[test]
fn test_complete_stops_at_pending_siblings() {
    let mut service = TaskWorkflowService::new(Store::new(), MockVcsBackend);

    // Create: milestone -> task1, task2
    let milestone = service.task_service
        .create(&CreateTaskInput {
            description: "Milestone".to_string(),
            context: None,
            parent_id: None,
            priority: Some(0),
            blocked_by: vec![],
        })
        .unwrap();

    let task1 = service.task_service
        .create(&CreateTaskInput {
            description: "Task 1".to_string(),
            context: None,
            parent_id: Some(milestone.id.clone()),
            priority: Some(0),
            blocked_by: vec![],
        })
        .unwrap();

    let _task2 = service.task_service
        .create(&CreateTaskInput {
            description: "Task 2".to_string(),
            context: None,
            parent_id: Some(milestone.id.clone()),
            priority: Some(0),
            blocked_by: vec![],
        })
        .unwrap();

    // Complete task1 - milestone should NOT auto-complete (task2 still pending)
    service.complete(&task1.id, None).unwrap();

    let milestone_after = service.task_service.get(&milestone.id).unwrap();
    assert!(!milestone_after.completed);
}

#[test]
fn test_complete_with_learnings_bubbles_to_parent() {
    let mut service = TaskWorkflowService::new(Store::new(), MockVcsBackend);

    // Create: milestone -> task -> subtask1, subtask2 (sibling prevents auto-complete)
    let milestone = service.task_service
        .create(&CreateTaskInput {
            description: "Milestone".to_string(),
            context: None,
            parent_id: None,
            priority: Some(0),
            blocked_by: vec![],
        })
        .unwrap();

    let task = service.task_service
        .create(&CreateTaskInput {
            description: "Task".to_string(),
            context: None,
            parent_id: Some(milestone.id.clone()),
            priority: Some(0),
            blocked_by: vec![],
        })
        .unwrap();

    let subtask1 = service.task_service
        .create(&CreateTaskInput {
            description: "Subtask 1".to_string(),
            context: None,
            parent_id: Some(task.id.clone()),
            priority: Some(0),
            blocked_by: vec![],
        })
        .unwrap();

    // Second subtask prevents task from auto-completing
    let _subtask2 = service.task_service
        .create(&CreateTaskInput {
            description: "Subtask 2".to_string(),
            context: None,
            parent_id: Some(task.id.clone()),
            priority: Some(0),
            blocked_by: vec![],
        })
        .unwrap();

    // Complete subtask1 with learnings
    service
        .complete_with_learnings(
            &subtask1.id,
            Some("done"),
            &vec!["Learning 1".to_string(), "Learning 2".to_string()],
        )
        .unwrap();

    // Learnings should be on subtask1
    let subtask_learnings =
        service.task_service.store.list_learnings(&subtask1.id);
    assert_eq!(subtask_learnings.len(), 2);
    assert_eq!(subtask_learnings[0].content, "Learning 1");
    assert_eq!(subtask_learnings[1].content, "Learning 2");
    // Origin should be subtask1 itself
    assert_eq!(
        subtask_learnings[0].source_task_id,
        Some(subtask1.id.clone())
    );

    // Learnings should have bubbled to task (parent)
    let task_learnings = service.task_service.store.list_learnings(&task.id);
    assert_eq!(task_learnings.len(), 2);
    assert_eq!(task_learnings[0].content, "Learning 1");
    // Origin preserved through bubble
    assert_eq!(task_learnings[0].source_task_id, Some(subtask1.id.clone()));

    // Task should NOT be auto-completed (subtask2 still pending)
    let task_after = service.task_service.get(&task.id).unwrap();
    assert!(!task_after.completed);

    // Learnings should NOT be on milestone yet (task not completed)
    let milestone_learnings =
        service.task_service.store.list_learnings(&milestone.id);
    assert_eq!(milestone_learnings.len(), 0);
}

#[test]
fn test_learnings_bubble_transitively_on_parent_complete() {
    let mut service = TaskWorkflowService::new(Store::new(), MockVcsBackend);

    // Create: milestone -> task -> subtask
    let milestone = service.task_service
        .create(&CreateTaskInput {
            description: "Milestone".to_string(),
            context: None,
            parent_id: None,
            priority: Some(0),
            blocked_by: vec![],
        })
        .unwrap();

    let task = service.task_service
        .create(&CreateTaskInput {
            description: "Task".to_string(),
            context: None,
            parent_id: Some(milestone.id.clone()),
            priority: Some(0),
            blocked_by: vec![],
        })
        .unwrap();

    let subtask = service.task_service
        .create(&CreateTaskInput {
            description: "Subtask".to_string(),
            context: None,
            parent_id: Some(task.id.clone()),
            priority: Some(0),
            blocked_by: vec![],
        })
        .unwrap();

    // Complete subtask with learning
    service
        .complete_with_learnings(&subtask.id, None, &vec!["From subtask".to_string()])
        .unwrap();

    // Task auto-completes (only child done), which bubbles learnings to milestone
    let task_after = service.task_service.get(&task.id).unwrap();
    assert!(task_after.completed);

    // Now milestone should have the learning (bubbled from task which had it from subtask)
    let milestone_learnings =
        service.task_service.store.list_learnings(&milestone.id);
    assert_eq!(milestone_learnings.len(), 1);
    assert_eq!(milestone_learnings[0].content, "From subtask");
    // Origin preserved: still points to subtask
    assert_eq!(
        milestone_learnings[0].source_task_id,
        Some(subtask.id.clone())
    );
}

#[test]
fn test_sibling_sees_learnings_via_parent() {
    let mut service = TaskWorkflowService::new(Store::new(), MockVcsBackend);

    // Create: milestone -> task_a (with subtasks), task_b (with subtasks)
    let milestone = service.task_service
        .create(&CreateTaskInput {
            description: "Milestone".to_string(),
            context: None,
            parent_id: None,
            priority: Some(0),
            blocked_by: vec![],
        })
        .unwrap();

    let task_a = service.task_service
        .create(&CreateTaskInput {
            description: "Task A".to_string(),
            context: None,
            parent_id: Some(milestone.id.clone()),
            priority: Some(0),
            blocked_by: vec![],
        })
        .unwrap();

    let subtask_a1 = service.task_service
        .create(&CreateTaskInput {
            description: "Subtask A1".to_string(),
            context: None,
            parent_id: Some(task_a.id.clone()),
            priority: Some(0),
            blocked_by: vec![],
        })
        .unwrap();

    let subtask_a2 = service.task_service
        .create(&CreateTaskInput {
            description: "Subtask A2".to_string(),
            context: None,
            parent_id: Some(task_a.id.clone()),
            priority: Some(0),
            blocked_by: vec![],
        })
        .unwrap();

    // Complete A1 with learning
    service
        .complete_with_learnings(&subtask_a1.id, None, &vec!["A1 discovery".to_string()])
        .unwrap();

    // A2 should see A1's learning via parent (task_a)
    let task_a_learnings = service.task_service.store.list_learnings(&task_a.id);
    assert_eq!(task_a_learnings.len(), 1);
    assert_eq!(task_a_learnings[0].content, "A1 discovery");

    // Start A2 and get its inherited learnings
    let a2_with_context = service.task_service.get(&subtask_a2.id).unwrap();
    // InheritedLearnings.parent should contain A1's learning
    assert!(a2_with_context.learnings.is_some());
    let inherited = a2_with_context.learnings.unwrap();
    assert_eq!(inherited.parent.len(), 1);
    assert_eq!(inherited.parent[0].content, "A1 discovery");
}

#[test]
fn test_learnings_idempotent_on_retry() {
    let mut service = TaskWorkflowService::new(Store::new(), MockVcsBackend);

    let milestone = service.task_service
        .create(&CreateTaskInput {
            description: "Milestone".to_string(),
            context: None,
            parent_id: None,
            priority: Some(0),
            blocked_by: vec![],
        })
        .unwrap();

    let task = service.task_service
        .create(&CreateTaskInput {
            description: "Task".to_string(),
            context: None,
            parent_id: Some(milestone.id.clone()),
            priority: Some(0),
            blocked_by: vec![],
        })
        .unwrap();

    // Complete with learning
    service
        .complete_with_learnings(&task.id, None, &vec!["Important note".to_string()])
        .unwrap();

    // Try to complete again (idempotent) - should not duplicate learnings
    service
        .complete_with_learnings(&task.id, None, &vec!["Important note".to_string()])
        .unwrap();

    // Should still only have 1 learning on milestone (not duplicated)
    let milestone_learnings =
        service.task_service.store.list_learnings(&milestone.id);
    assert_eq!(milestone_learnings.len(), 1);
}

#[test]
fn test_start_rejects_parent_with_incomplete_children() {
    let mut service = TaskWorkflowService::new(Store::new(), MockVcsBackend);

    // Create: milestone -> task -> subtask
    let milestone = service.task_service
        .create(&CreateTaskInput {
            description: "Milestone".to_string(),
            context: None,
            parent_id: None,
            priority: Some(0),
            blocked_by: vec![],
        })
        .unwrap();

    let task = service.task_service
        .create(&CreateTaskInput {
            description: "Task".to_string(),
            context: None,
            parent_id: Some(milestone.id.clone()),
            priority: Some(0),
            blocked_by: vec![],
        })
        .unwrap();

    let subtask = service.task_service
        .create(&CreateTaskInput {
            description: "Subtask".to_string(),
            context: None,
            parent_id: Some(task.id.clone()),
            priority: Some(0),
            blocked_by: vec![],
        })
        .unwrap();

    // Starting milestone directly should fail
    let result = service.start(&milestone.id);
    assert!(result.is_err());
    let err = result.unwrap_err();
    match err {
        OsError::NotNextReady {
            requested,
            next_ready,
            ..
        } => {
            assert_eq!(requested, milestone.id);
            assert_eq!(next_ready, Some(subtask.id.clone()));
        }
        _ => panic!("Expected NotNextReady error, got {:?}", err),
    }

    // Starting task directly should also fail (has subtask)
    let result = service.start(&task.id);
    assert!(result.is_err());
    let err = result.unwrap_err();
    match err {
        OsError::NotNextReady {
            requested,
            next_ready,
            ..
        } => {
            assert_eq!(requested, task.id);
            assert_eq!(next_ready, Some(subtask.id.clone()));
        }
        _ => panic!("Expected NotNextReady error, got {:?}", err),
    }

    // Starting subtask should succeed
    let result = service.start(&subtask.id);
    assert!(result.is_ok());
}

#[test]
fn test_start_rejects_blocked_task() {
    let mut service = TaskWorkflowService::new(Store::new(), MockVcsBackend);

    // Create: blocker, blocked_task (blocked by blocker)
    let blocker = service.task_service
        .create(&CreateTaskInput {
            description: "Blocker".to_string(),
            context: None,
            parent_id: None,
            priority: Some(0),
            blocked_by: vec![],
        })
        .unwrap();

    let blocked_task = service.task_service
        .create(&CreateTaskInput {
            description: "Blocked task".to_string(),
            context: None,
            parent_id: None,
            priority: Some(0),
            blocked_by: vec![blocker.id.clone()],
        })
        .unwrap();

    // Starting blocked_task should fail with blocked error
    let result = service.start(&blocked_task.id);
    assert!(result.is_err());
    let err = result.unwrap_err();
    match err {
        OsError::NotNextReady { reason, .. } => {
            assert!(matches!(reason, NotReadyReason::Blocked { .. }));
        }
        _ => panic!(
            "Expected NotNextReady error with Blocked reason, got {:?}",
            err
        ),
    }
}

#[test]
fn test_start_bubbles_started_at_to_ancestors() {
    let mut service = TaskWorkflowService::new(Store::new(), MockVcsBackend);

    // Create: milestone -> task -> subtask
    let milestone = service.task_service
        .create(&CreateTaskInput {
            description: "Milestone".to_string(),
            context: None,
            parent_id: None,
            priority: Some(0),
            blocked_by: vec![],
        })
        .unwrap();

    let task = service.task_service
        .create(&CreateTaskInput {
            description: "Task".to_string(),
            context: None,
            parent_id: Some(milestone.id.clone()),
            priority: Some(0),
            blocked_by: vec![],
        })
        .unwrap();

    let subtask = service.task_service
        .create(&CreateTaskInput {
            description: "Subtask".to_string(),
            context: None,
            parent_id: Some(task.id.clone()),
            priority: Some(0),
            blocked_by: vec![],
        })
        .unwrap();

    // Verify ancestors have no started_at initially
    assert!(service.task_service.get(&milestone.id).unwrap().started_at.is_none());
    assert!(service.task_service.get(&task.id).unwrap().started_at.is_none());
    assert!(service.task_service.get(&subtask.id).unwrap().started_at.is_none());

    // Start the subtask
    let started = service.start(&subtask.id).unwrap();
    assert!(started.started_at.is_some());
    assert!(started.bookmark.is_some()); // VCS state only on leaf

    // Ancestors should now have started_at but NOT VCS state
    let task_after = service.task_service.get(&task.id).unwrap();
    assert!(task_after.started_at.is_some());
    assert!(task_after.bookmark.is_none()); // No VCS bookmark on parent

    let milestone_after = service.task_service.get(&milestone.id).unwrap();
    assert!(milestone_after.started_at.is_some());
    assert!(milestone_after.bookmark.is_none()); // No VCS bookmark on grandparent
}

#[test]
fn test_start_is_idempotent() {
    let mut service = TaskWorkflowService::new(Store::new(), MockVcsBackend);

    let task = service.task_service
        .create(&CreateTaskInput {
            description: "Task".to_string(),
            context: None,
            parent_id: None,
            priority: Some(0),
            blocked_by: vec![],
        })
        .unwrap();

    // Start task
    let first_start = service.start(&task.id).unwrap();
    assert!(first_start.started_at.is_some());
    let first_started_at = first_start.started_at;

    // Start again - should be idempotent
    let second_start = service.start(&task.id).unwrap();
    assert_eq!(second_start.started_at, first_started_at);
}

#[test]
fn test_start_allows_leaf_without_children() {
    let mut service = TaskWorkflowService::new(Store::new(), MockVcsBackend);

    // Create a milestone with no children (it's a leaf)
    let milestone = service.task_service
        .create(&CreateTaskInput {
            description: "Leaf milestone".to_string(),
            context: None,
            parent_id: None,
            priority: Some(0),
            blocked_by: vec![],
        })
        .unwrap();

    // Should be startable since it's a leaf
    let result = service.start(&milestone.id);
    assert!(result.is_ok());
    assert!(result.unwrap().started_at.is_some());
}

#[test]
fn test_complete_cancelled_task_fails() {
    let mut service = TaskWorkflowService::new(Store::new(), MockVcsBackend);

    let task = service.task_service
        .create(&CreateTaskInput {
            description: "Task".to_string(),
            context: None,
            parent_id: None,
            priority: None,
            blocked_by: vec![],
        })
        .unwrap();

    // Cancel the task
    service.task_service.cancel(&task.id).unwrap();

    // Try to complete cancelled task
    let result = service.complete_with_learnings(&task.id, None, &vec![]);
    assert!(
        matches!(result, Err(OsError::CannotCompleteCancelled)),
        "Expected CannotCompleteCancelled error, got {:?}",
        result
    );
}

#[test]
fn test_complete_archived_task_fails() {
    let mut service = TaskWorkflowService::new(Store::new(), MockVcsBackend);

    let task = service.task_service
        .create(&CreateTaskInput {
            description: "Task".to_string(),
            context: None,
            parent_id: None,
            priority: None,
            blocked_by: vec![],
        })
        .unwrap();

    // Complete then archive the task
    service.task_service.complete(&task.id, None).unwrap();
    service.task_service.archive(&task.id).unwrap();

    // Try to complete archived task (even though already completed, archived check comes first)
    let result = service.complete_with_learnings(&task.id, None, &vec![]);
    assert!(
        matches!(result, Err(OsError::CannotCompleteArchived)),
        "Expected CannotCompleteArchived error, got {:?}",
        result
    );
}
