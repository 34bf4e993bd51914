use std::cell::RefCell;

use overseer::error::{BlockerRelationKind, NotReadyReason, OsError};
use overseer::graph::would_create_blocker_cycle;
use overseer::id::{LearningId, TaskId};
use overseer::store::{BlockerRelation, Store};
use overseer::task_service::TaskService;
use overseer::types::{CreateTaskInput, LifecycleState, Task, Timestamp, UpdateTaskInput};
use overseer::vcs::{
    CommitResult, DiffEntry, LogEntry, VcsBackend, VcsError, VcsStatus, VcsType,
};
use overseer::workflow::{StartPlan, TaskWorkflowService};

/// A backend that records what it is asked to do and fails where told to.
struct Recorder {
    calls: RefCell<Vec<String>>,
    fail_commit: Option<fn() -> VcsError>,
    fail_checkout: Option<fn() -> VcsError>,
    bookmark_exists: bool,
}

impl Recorder {
    fn new() -> Recorder {
        Recorder {
            calls: RefCell::new(Vec::new()),
            fail_commit: None,
            fail_checkout: None,
            bookmark_exists: false,
        }
    }
    fn calls(&self) -> Vec<String> {
        self.calls.borrow().clone()
    }
}

impl VcsBackend for Recorder {
    fn vcs_type(&self) -> VcsType {
        VcsType::Git
    }
    fn root(&self) -> String {
        "/recorder".to_string()
    }
    fn status(&self) -> Result<VcsStatus, VcsError> {
        Ok(VcsStatus { files: vec![], working_copy_id: None })
    }
    fn log(&self, _limit: usize) -> Result<Vec<LogEntry>, VcsError> {
        Ok(vec![])
    }
    fn diff(&self, _base: Option<&str>) -> Result<Vec<DiffEntry>, VcsError> {
        Ok(vec![])
    }
    fn commit(&self, message: &str) -> Result<CommitResult, VcsError> {
        self.calls.borrow_mut().push(format!("commit:{}", message));
        match self.fail_commit {
            Some(f) => Err(f()),
            None => Ok(CommitResult { id: "c1".to_string(), message: message.to_string() }),
        }
    }
    fn current_commit_id(&self) -> Result<String, VcsError> {
        Ok("head-1".to_string())
    }
    fn create_bookmark(&self, name: &str, _target: Option<&str>) -> Result<(), VcsError> {
        self.calls.borrow_mut().push(format!("create:{}", name));
        if self.bookmark_exists {
            Err(VcsError::BookmarkExists(name.to_string()))
        } else {
            Ok(())
        }
    }
    fn delete_bookmark(&self, name: &str) -> Result<(), VcsError> {
        self.calls.borrow_mut().push(format!("delete:{}", name));
        Ok(())
    }
    fn list_bookmarks(&self, _prefix: Option<&str>) -> Result<Vec<String>, VcsError> {
        Ok(vec![])
    }
    fn checkout(&self, target: &str) -> Result<(), VcsError> {
        self.calls.borrow_mut().push(format!("checkout:{}", target));
        match self.fail_checkout {
            Some(f) => Err(f()),
            None => Ok(()),
        }
    }
    fn squash(&self, message: &str) -> Result<CommitResult, VcsError> {
        Ok(CommitResult { id: "s1".to_string(), message: message.to_string() })
    }
    fn rebase_onto(&self, _target: &str) -> Result<(), VcsError> {
        Ok(())
    }
}

fn input(description: &str, parent: Option<&TaskId>, priority: i32, blocked_by: Vec<TaskId>) -> CreateTaskInput {
    CreateTaskInput {
        description: description.to_string(),
        context: None,
        parent_id: parent.cloned(),
        priority: Some(priority),
        blocked_by,
    }
}

fn at(secs: i64) -> Timestamp {
    Timestamp { secs, nanos: 0 }
}

/// milestone -> task -> subtask, all of priority 0
fn chain(svc: &mut TaskService) -> (Task, Task, Task) {
    let m = svc.create(&input("M", None, 0, vec![])).unwrap();
    let t = svc.create(&input("T", Some(&m.id), 0, vec![])).unwrap();
    let s = svc.create(&input("S", Some(&t.id), 0, vec![])).unwrap();
    (m, t, s)
}

#[test]
fn scenario_deepest_leaf_readiness() {
    let mut svc = TaskService::new(Store::new());
    let (m, _t, s) = chain(&mut svc);
    assert_eq!(svc.next_ready(Some(&m.id)).unwrap(), Some(s.id));
}

#[test]
fn scenario_blocker_across_trees() {
    let mut svc = TaskService::new(Store::new());
    let b = svc.create(&input("B", None, 0, vec![])).unwrap();
    let m = svc.create(&input("M", None, 0, vec![b.id.clone()])).unwrap();
    let t = svc.create(&input("T", Some(&m.id), 0, vec![])).unwrap();
    assert_eq!(svc.next_ready(None).unwrap(), Some(b.id.clone()));
    assert_eq!(svc.next_ready(Some(&m.id)).unwrap(), None);
    svc.complete(&b.id, None).unwrap();
    assert_eq!(svc.next_ready(Some(&m.id)).unwrap(), Some(t.id.clone()));
    svc.reopen(&b.id).unwrap();
    assert!(svc.get(&t.id).unwrap().effectively_blocked);
    assert!(svc.store.effectively_blocked(&t.id));
    assert!(svc.store.ancestor_blocked(&t.id));
    assert!(svc.store.own_unblocked(&t.id));
}

#[test]
fn scenario_cancel_does_not_satisfy() {
    let mut svc = TaskService::new(Store::new());
    let b = svc.create(&input("B", None, 1, vec![])).unwrap();
    let d = svc.create(&input("D", None, 1, vec![b.id.clone()])).unwrap();
    let cancelled = svc.cancel(&b.id).unwrap();
    assert!(svc.get(&d.id).unwrap().effectively_blocked);
    assert!(!cancelled.satisfies_blocker());
    assert!(!svc.store.is_task_satisfies_blocker(&b.id));
    assert_eq!(svc.store.unsatisfied_blockers(&d.id), vec![b.id.clone()]);
}

#[test]
fn scenario_milestone_archive_cascade() {
    let mut svc = TaskService::new(Store::new());
    let (m, t, s) = chain(&mut svc);
    svc.complete(&s.id, None).unwrap();
    svc.complete(&t.id, None).unwrap();
    svc.complete(&m.id, None).unwrap();
    // reopening the subtask first makes the archive fail
    svc.reopen(&s.id).unwrap();
    assert!(matches!(svc.archive(&m.id), Err(OsError::CannotArchiveActive)));
    assert!(!svc.get(&t.id).unwrap().archived);
    svc.complete(&s.id, None).unwrap();
    let archived = svc.archive(&m.id).unwrap();
    assert!(archived.archived);
    assert!(svc.get(&t.id).unwrap().archived);
    assert!(svc.get(&s.id).unwrap().archived);
    assert!(svc.get(&s.id).unwrap().archived_at.is_some());
}

#[test]
fn scenario_start_rejection_for_non_leaf() {
    let mut wf = TaskWorkflowService::new(Store::new(), Recorder::new());
    let (m, t, s) = chain(&mut wf.task_service);
    match wf.start(&m.id) {
        Err(OsError::NotNextReady { message, requested, next_ready, reason }) => {
            assert_eq!(requested, m.id);
            assert_eq!(next_ready, Some(s.id.clone()));
            assert!(matches!(reason, NotReadyReason::HasIncompleteChildren));
            assert_eq!(message, "Cannot start 'M' - has incomplete children. Start 'S' instead.");
        }
        other => panic!("expected NotNextReady, got {:?}", other),
    }
    assert!(wf.vcs.calls().is_empty());
    let started = wf.start(&s.id).unwrap();
    assert_eq!(started.bookmark, Some(format!("task/{}", s.id.as_str())));
    assert_eq!(started.start_commit, Some("head-1".to_string()));
    assert!(started.started_at.is_some());
    let t_after = wf.task_service.get(&t.id).unwrap();
    let m_after = wf.task_service.get(&m.id).unwrap();
    assert!(t_after.started_at.is_some());
    assert!(m_after.started_at.is_some());
    assert!(t_after.bookmark.is_none() && t_after.start_commit.is_none());
    assert!(m_after.bookmark.is_none() && m_after.start_commit.is_none());
    assert_eq!(
        wf.vcs.calls(),
        vec![
            format!("create:task/{}", s.id.as_str()),
            format!("checkout:task/{}", s.id.as_str()),
        ]
    );
}

#[test]
fn scenario_idempotent_learning() {
    let mut wf = TaskWorkflowService::new(Store::new(), Recorder::new());
    let p = wf.task_service.create(&input("P", None, 0, vec![])).unwrap();
    let t = wf.task_service.create(&input("T", Some(&p.id), 0, vec![])).unwrap();
    let _other = wf.task_service.create(&input("U", Some(&p.id), 0, vec![])).unwrap();
    wf.complete_with_learnings(&t.id, None, &vec!["note".to_string()]).unwrap();
    let once = wf.task_service.store.all_learnings().len();
    wf.complete_with_learnings(&t.id, None, &vec!["note".to_string()]).unwrap();
    let on_parent = wf.task_service.store.list_learnings(&p.id);
    assert_eq!(on_parent.len(), 1);
    assert_eq!(on_parent[0].content, "note");
    assert_eq!(on_parent[0].source_task_id, Some(t.id.clone()));
    assert_eq!(wf.task_service.store.all_learnings().len(), once);
    // the same at the level of the task operations: nothing is noted or handed up twice
    let mut svc = TaskService::new(Store::new());
    let p = svc.create(&input("P", None, 0, vec![])).unwrap();
    let t = svc.create(&input("T", Some(&p.id), 0, vec![])).unwrap();
    svc.complete_with_learnings(&t.id, None, &vec!["a".to_string(), "a".to_string()], None).unwrap();
    svc.complete_with_learnings(&t.id, None, &vec!["a".to_string()], None).unwrap();
    assert_eq!(svc.store.list_learnings(&t.id).len(), 1);
    assert_eq!(svc.store.list_learnings(&p.id).len(), 1);
}

#[test]
fn commit_failure_leaves_the_task_open() {
    let mut vcs = Recorder::new();
    vcs.fail_commit = Some(|| VcsError::OperationFailed("disk full".to_string()));
    let mut wf = TaskWorkflowService::new(Store::new(), vcs);
    let p = wf.task_service.create(&input("P", None, 0, vec![])).unwrap();
    let t = wf.task_service.create(&input("T", Some(&p.id), 0, vec![])).unwrap();
    let r = wf.complete_with_learnings(&t.id, Some("done"), &vec!["note".to_string()]);
    assert!(matches!(r, Err(OsError::Vcs(VcsError::OperationFailed(_)))));
    let after = wf.task_service.get(&t.id).unwrap();
    assert!(!after.completed);
    assert!(after.completed_at.is_none());
    assert!(after.result.is_none());
    assert!(wf.task_service.store.all_learnings().is_empty());
    assert!(!wf.task_service.get(&p.id).unwrap().completed);
    assert_eq!(wf.vcs.calls(), vec!["commit:Complete: T\n\ndone".to_string()]);
    // a dirty working copy and a missing repository keep their own errors
    wf.vcs.fail_commit = Some(|| VcsError::DirtyWorkingCopy);
    assert!(matches!(wf.complete(&t.id, None), Err(OsError::DirtyWorkingCopy)));
    wf.vcs.fail_commit = Some(|| VcsError::NotARepository);
    assert!(matches!(wf.complete(&t.id, None), Err(OsError::NotARepository)));
    assert!(!wf.task_service.get(&t.id).unwrap().completed);
    // nothing to commit is no failure
    wf.vcs.fail_commit = Some(|| VcsError::NothingToCommit);
    let done = wf.complete(&t.id, None).unwrap();
    assert!(done.completed);
    assert_eq!(done.commit_sha, Some("head-1".to_string()));
    // the parent had nothing left to wait for and was completed as a milestone
    assert!(wf.task_service.get(&p.id).unwrap().completed);
    assert!(wf.vcs.calls().contains(&"commit:Milestone: P\n\n".to_string()));
}

#[test]
fn complete_after_commit_decides_by_the_answer_of_the_backend() {
    let mut wf = TaskWorkflowService::new(Store::new(), Recorder::new());
    let t = wf.task_service.create(&input("T", None, 0, vec![])).unwrap();
    let ids = vec![LearningId::new(), LearningId::new()];
    let r = wf.complete_after_commit(
        &t.id,
        None,
        &vec!["x".to_string()],
        Err(VcsError::RebaseConflict),
        Some("abc"),
        &ids,
        at(5),
    );
    assert!(matches!(r, Err(OsError::Vcs(VcsError::RebaseConflict))));
    assert!(!wf.task_service.get(&t.id).unwrap().completed);
    let r = wf
        .complete_after_commit(
            &t.id,
            Some("r"),
            &vec!["x".to_string()],
            Err(VcsError::NothingToCommit),
            Some("abc"),
            &ids,
            at(5),
        )
        .unwrap();
    assert!(r.completed);
    assert_eq!(r.completed_at, Some(at(5)));
    assert_eq!(r.updated_at, at(5));
    assert_eq!(r.commit_sha, Some("abc".to_string()));
    assert_eq!(r.result, Some("r".to_string()));
    let notes = wf.task_service.store.list_learnings(&t.id);
    assert_eq!(notes.len(), 1);
    assert_eq!(notes[0].id, ids[0]);
    assert_eq!(notes[0].source_task_id, Some(t.id.clone()));
    assert_eq!(notes[0].created_at, at(5));
}

#[test]
fn bubble_up_stops_at_blocked_or_busy_parents() {
    let mut wf = TaskWorkflowService::new(Store::new(), Recorder::new());
    let b = wf.task_service.create(&input("B", None, 2, vec![])).unwrap();
    let p = wf.task_service.create(&input("P", None, 0, vec![b.id.clone()])).unwrap();
    let c1 = wf.task_service.create(&input("C1", Some(&p.id), 0, vec![])).unwrap();
    let c2 = wf.task_service.create(&input("C2", Some(&p.id), 1, vec![])).unwrap();
    // a pending sibling: the parent is not touched
    assert!(!wf.bubbles_to(&p.id));
    assert_eq!(wf.bubble_step(&p.id).unwrap(), false);
    wf.task_service.complete(&c1.id, None).unwrap();
    wf.task_service.complete(&c2.id, None).unwrap();
    // no pending child, but the parent waits for B
    assert!(!wf.task_service.store.has_pending_children(&p.id));
    assert!(!wf.bubbles_to(&p.id));
    assert_eq!(wf.bubble_step(&p.id).unwrap(), false);
    assert!(!wf.task_service.get(&p.id).unwrap().completed);
    wf.task_service.complete(&b.id, None).unwrap();
    assert!(wf.bubbles_to(&p.id));
    assert_eq!(wf.bubble_step(&p.id).unwrap(), true);
    assert!(wf.task_service.get(&p.id).unwrap().completed);
}

#[test]
fn start_plans_and_backend_failures() {
    let mut vcs = Recorder::new();
    vcs.bookmark_exists = true;
    let mut wf = TaskWorkflowService::new(Store::new(), vcs);
    let t = wf.task_service.create(&input("T", None, 0, vec![])).unwrap();
    match wf.plan_start(&t.id).unwrap() {
        StartPlan::Begin { bookmark } => assert_eq!(bookmark, format!("task/{}", t.id.as_str())),
        other => panic!("expected Begin, got {:?}", other),
    }
    // an existing bookmark is taken as it is
    let started = wf.start(&t.id).unwrap();
    assert!(started.started_at.is_some());
    match wf.plan_start(&t.id).unwrap() {
        StartPlan::Resume { bookmark } => assert_eq!(bookmark, format!("task/{}", t.id.as_str())),
        other => panic!("expected Resume, got {:?}", other),
    }
    // a failing checkout leaves a new task as it was
    let u = wf.task_service.create(&input("U", None, 0, vec![])).unwrap();
    wf.vcs.fail_checkout = Some(|| VcsError::DirtyWorkingCopy);
    assert!(matches!(wf.start(&u.id), Err(OsError::DirtyWorkingCopy)));
    let after = wf.task_service.get(&u.id).unwrap();
    assert!(after.started_at.is_none() && after.bookmark.is_none() && after.start_commit.is_none());
    wf.vcs.fail_checkout = Some(|| VcsError::TargetNotFound("x".to_string()));
    assert!(matches!(wf.start(&u.id), Err(OsError::Vcs(VcsError::TargetNotFound(_)))));
    // states that cannot be started
    wf.vcs.fail_checkout = None;
    let done = wf.task_service.create(&input("done", None, 0, vec![])).unwrap();
    wf.task_service.complete(&done.id, None).unwrap();
    assert!(matches!(wf.start(&done.id), Err(OsError::CannotStartCompleted)));
    let gone = wf.task_service.create(&input("gone", None, 0, vec![])).unwrap();
    wf.task_service.cancel(&gone.id).unwrap();
    assert!(matches!(wf.start(&gone.id), Err(OsError::CannotStartCancelled)));
    wf.task_service.archive(&gone.id).unwrap();
    assert!(matches!(wf.start(&gone.id), Err(OsError::CannotModifyArchived)));
    assert!(matches!(wf.start(&TaskId::new()), Err(OsError::TaskNotFound(_))));
    // blocked, and nothing ready below
    let b = wf.task_service.create(&input("b", None, 2, vec![])).unwrap();
    let w = wf.task_service.create(&input("w", None, 2, vec![b.id.clone()])).unwrap();
    match wf.start(&w.id) {
        Err(OsError::NotNextReady { reason: NotReadyReason::Blocked { blockers }, next_ready, requested, .. }) => {
            assert_eq!(blockers, vec![b.id.clone()]);
            assert_eq!(requested, w.id);
            assert_eq!(next_ready, wf.task_service.next_ready(None).unwrap());
        }
        other => panic!("expected Blocked, got {:?}", other),
    }
    let holder = wf.task_service.create(&input("holder", None, 2, vec![])).unwrap();
    let _held = wf.task_service.create(&input("held", Some(&holder.id), 2, vec![b.id.clone()])).unwrap();
    match wf.start(&holder.id) {
        Err(OsError::NotNextReady { reason: NotReadyReason::NoReadyTasksInSubtree, next_ready, .. }) => {
            assert_eq!(next_ready, None);
        }
        other => panic!("expected NoReadyTasksInSubtree, got {:?}", other),
    }
}

#[test]
fn completion_cleans_up_the_bookmark() {
    let mut wf = TaskWorkflowService::new(Store::new(), Recorder::new());
    let p = wf.task_service.create(&input("P", None, 0, vec![])).unwrap();
    let t = wf.task_service.create(&input("T", Some(&p.id), 0, vec![])).unwrap();
    let _u = wf.task_service.create(&input("U", Some(&p.id), 1, vec![])).unwrap();
    wf.start(&t.id).unwrap();
    let name = format!("task/{}", t.id.as_str());
    wf.complete(&t.id, Some("ok")).unwrap();
    let after = wf.task_service.get(&t.id).unwrap();
    assert!(after.completed);
    assert!(after.bookmark.is_none());
    assert_eq!(after.start_commit, Some("head-1".to_string()));
    let calls = wf.vcs.calls();
    assert_eq!(calls[calls.len() - 3], "commit:Complete: T\n\nok");
    assert_eq!(calls[calls.len() - 2], "checkout:head-1");
    assert_eq!(calls[calls.len() - 1], format!("delete:{}", name));
    // the parent has a pending child and stays open
    assert!(!wf.task_service.get(&p.id).unwrap().completed);
    // refusals of the workflow
    let c = wf.task_service.create(&input("c", None, 0, vec![])).unwrap();
    wf.task_service.cancel(&c.id).unwrap();
    assert!(matches!(wf.complete(&c.id, None), Err(OsError::CannotCompleteCancelled)));
    wf.task_service.archive(&c.id).unwrap();
    assert!(matches!(wf.complete(&c.id, None), Err(OsError::CannotCompleteArchived)));
    assert!(matches!(wf.complete_milestone(&c.id, None), Err(OsError::CannotCompleteArchived)));
    assert!(matches!(wf.complete(&TaskId::new(), None), Err(OsError::TaskNotFound(_))));
}

#[test]
fn delete_leaves_no_trace() {
    let mut svc = TaskService::new(Store::new());
    let (m, t, s) = chain(&mut svc);
    let other = svc.create(&input("other", None, 1, vec![t.id.clone()])).unwrap();
    let third = svc.create(&input("third", None, 1, vec![other.id.clone()])).unwrap();
    svc.add_blocker(&s.id, &other.id).unwrap();
    svc.store.add_learning(&s.id, "x", None, LearningId::new(), at(1)).unwrap();
    svc.delete(&t.id).unwrap();
    assert!(!svc.store.task_exists(&t.id));
    assert!(!svc.store.task_exists(&s.id));
    assert!(svc.store.task_exists(&m.id));
    for e in svc.store.all_blockers() {
        assert!(e.task_id != t.id && e.blocker_id != t.id);
        assert!(e.task_id != s.id && e.blocker_id != s.id);
    }
    assert_eq!(svc.store.all_blockers().len(), 1);
    for task in svc.store.all_tasks() {
        assert!(task.parent_id != Some(t.id.clone()));
    }
    assert!(svc.store.all_learnings().is_empty());
    assert!(svc.get(&other.id).unwrap().blocked_by.is_empty());
    assert_eq!(svc.get(&third.id).unwrap().blocked_by, vec![other.id.clone()]);
    assert!(matches!(svc.delete(&t.id), Err(OsError::TaskNotFound(_))));
}

#[test]
fn order_is_priority_then_time_then_identifier() {
    let ids: Vec<TaskId> = vec![
        TaskId::parse("task_01ARZ3NDEKTSV4RRFFQ69G5FAA").unwrap(),
        TaskId::parse("task_01ARZ3NDEKTSV4RRFFQ69G5FAB").unwrap(),
        TaskId::parse("task_01ARZ3NDEKTSV4RRFFQ69G5FAC").unwrap(),
        TaskId::parse("task_01ARZ3NDEKTSV4RRFFQ69G5FAD").unwrap(),
    ];
    // (identifier, priority, time): D comes first by priority, then C by time, then A before B
    let rows = vec![(1usize, 1, 20), (3, 0, 99), (0, 1, 20), (2, 1, 10)];
    let expected = vec![ids[3].clone(), ids[2].clone(), ids[0].clone(), ids[1].clone()];
    let mut forward = TaskService::new(Store::new());
    for (i, p, s) in rows.iter() {
        forward.create_at(&input("x", None, *p, vec![]), ids[*i].clone(), at(*s)).unwrap();
    }
    let mut backward = TaskService::new(Store::new());
    for (i, p, s) in rows.iter().rev() {
        backward.create_at(&input("x", None, *p, vec![]), ids[*i].clone(), at(*s)).unwrap();
    }
    let order = |svc: &TaskService| -> Vec<TaskId> {
        svc.store.list_roots().into_iter().map(|t| t.id).collect()
    };
    assert_eq!(order(&forward), expected);
    assert_eq!(order(&backward), expected);
    let listed: Vec<TaskId> =
        forward.list(&Default::default()).unwrap().into_iter().map(|t| t.id).collect();
    assert_eq!(listed, expected);
    assert_eq!(forward.next_ready(None).unwrap(), Some(ids[3].clone()));
    assert_eq!(backward.next_ready(None).unwrap(), Some(ids[3].clone()));
    // nanoseconds decide within a second
    let mut fine = TaskService::new(Store::new());
    fine.create_at(&input("late", None, 1, vec![]), ids[0].clone(), Timestamp { secs: 5, nanos: 2 })
        .unwrap();
    fine.create_at(&input("early", None, 1, vec![]), ids[1].clone(), Timestamp { secs: 5, nanos: 1 })
        .unwrap();
    assert_eq!(order(&fine), vec![ids[1].clone(), ids[0].clone()]);
    assert!(Timestamp { secs: 5, nanos: 1 }.is_before(&Timestamp { secs: 5, nanos: 2 }));
    assert!(!Timestamp { secs: 5, nanos: 2 }.is_before(&Timestamp { secs: 5, nanos: 2 }));
    assert!(Timestamp { secs: -1, nanos: 9 }.is_before(&Timestamp { secs: 0, nanos: 0 }));
}

#[test]
fn next_ready_is_never_effectively_blocked_under_a_root() {
    let mut svc = TaskService::new(Store::new());
    let b = svc.create(&input("B", None, 2, vec![])).unwrap();
    let m = svc.create(&input("M", None, 0, vec![])).unwrap();
    let t1 = svc.create(&input("T1", Some(&m.id), 0, vec![b.id.clone()])).unwrap();
    let _s1 = svc.create(&input("S1", Some(&t1.id), 0, vec![])).unwrap();
    let t2 = svc.create(&input("T2", Some(&m.id), 1, vec![])).unwrap();
    let s2 = svc.create(&input("S2", Some(&t2.id), 0, vec![])).unwrap();
    let next = svc.next_ready(Some(&m.id)).unwrap().unwrap();
    assert_eq!(next, s2.id);
    assert!(!svc.store.effectively_blocked(&next));
    // under a task whose milestone waits for a blocker nothing is ready
    svc.add_blocker(&m.id, &b.id).unwrap();
    assert_eq!(svc.next_ready(Some(&m.id)).unwrap(), None);
    assert!(svc.store.ancestor_blocked(&t2.id));
    assert!(svc.store.effectively_blocked(&s2.id));
    assert_eq!(svc.next_ready(Some(&t2.id)).unwrap(), None);
    assert_eq!(svc.next_ready(Some(&s2.id)).unwrap(), None);
    // a parent whose children are all done counts as a leaf
    svc.complete(&b.id, None).unwrap();
    svc.cancel(&s2.id).unwrap();
    assert_eq!(svc.next_ready(Some(&t2.id)).unwrap(), Some(t2.id.clone()));
    assert!(matches!(svc.next_ready(Some(&TaskId::new())), Err(OsError::TaskNotFound(_))));
}

#[test]
fn resolve_start_target_follows_blockers_and_finds_cycles() {
    let mut svc = TaskService::new(Store::new());
    let a = svc.create(&input("A", None, 0, vec![])).unwrap();
    let b = svc.create(&input("B", None, 0, vec![a.id.clone()])).unwrap();
    let c = svc.create(&input("C", None, 0, vec![b.id.clone()])).unwrap();
    assert_eq!(svc.resolve_start_target(&c.id).unwrap(), a.id);
    assert_eq!(svc.resolve_start_target(&a.id).unwrap(), a.id);
    // a cancelled blocker ends the way
    svc.cancel(&a.id).unwrap();
    match svc.resolve_start_target(&c.id) {
        Err(OsError::NoStartableTask { requested, message }) => {
            assert_eq!(requested, c.id);
            assert_eq!(message, format!("No startable task found under {}", c.id.as_str()));
        }
        other => panic!("expected NoStartableTask, got {:?}", other),
    }
    assert!(matches!(svc.resolve_start_target(&TaskId::new()), Err(OsError::TaskNotFound(_))));
    // a store that holds a cycle of blocker edges, as an older store might
    let x = TaskId::new();
    let y = TaskId::new();
    let blank = Store::new()
        .create_task(&input("x", None, 0, vec![]), x.clone(), at(1))
        .unwrap();
    let mut other = blank.clone();
    other.id = y.clone();
    let store = Store::from_parts(
        vec![blank, other],
        vec![
            BlockerRelation { task_id: x.clone(), blocker_id: y.clone() },
            BlockerRelation { task_id: y.clone(), blocker_id: x.clone() },
        ],
        vec![],
    )
    .unwrap();
    let cyclic = TaskService::new(store);
    match cyclic.resolve_start_target(&x) {
        Err(OsError::BlockerCycleDetected { message, chain }) => {
            assert_eq!(chain, vec![y.clone(), x.clone(), y.clone()]);
            assert_eq!(
                message,
                format!("Blocker cycle detected: {} -> {} -> {}", y.as_str(), x.as_str(), y.as_str())
            );
        }
        other => panic!("expected BlockerCycleDetected, got {:?}", other),
    }
}

#[test]
fn structural_refusals() {
    let mut svc = TaskService::new(Store::new());
    let (m, t, s) = chain(&mut svc);
    let other = svc.create(&input("other", None, 1, vec![])).unwrap();
    assert!(matches!(svc.create(&input("p", None, 3, vec![])), Err(OsError::InvalidPriority(3))));
    assert!(matches!(svc.create(&input("p", None, -1, vec![])), Err(OsError::InvalidPriority(-1))));
    assert!(matches!(
        svc.update(&t.id, &UpdateTaskInput { priority: Some(7), ..Default::default() }),
        Err(OsError::InvalidPriority(7))
    ));
    assert!(matches!(
        svc.create(&input("deep", Some(&s.id), 0, vec![])),
        Err(OsError::MaxDepthExceeded)
    ));
    let missing = TaskId::new();
    match svc.create(&input("x", Some(&missing), 0, vec![])) {
        Err(OsError::ParentNotFound(p)) => assert_eq!(p, missing),
        other => panic!("expected ParentNotFound, got {:?}", other),
    }
    match svc.create(&input("x", None, 0, vec![other.id.clone(), missing.clone()])) {
        Err(OsError::BlockerNotFound(b)) => assert_eq!(b, missing),
        other => panic!("expected BlockerNotFound, got {:?}", other),
    }
    // an identifier that is taken
    assert!(matches!(
        svc.create_at(&input("again", None, 0, vec![]), m.id.clone(), at(1)),
        Err(OsError::Database(_))
    ));
    // blockers that are related to the task
    let kind_of = |r: Result<Task, OsError>| match r {
        Err(OsError::InvalidBlockerRelation { kind, .. }) => kind,
        other => panic!("expected InvalidBlockerRelation, got {:?}", other),
    };
    assert_eq!(kind_of(svc.add_blocker(&t.id, &t.id)), BlockerRelationKind::Itself);
    assert_eq!(kind_of(svc.add_blocker(&s.id, &m.id)), BlockerRelationKind::Ancestor);
    assert_eq!(kind_of(svc.add_blocker(&m.id, &s.id)), BlockerRelationKind::Descendant);
    assert_eq!(
        kind_of(svc.create(&input("c", Some(&t.id), 0, vec![m.id.clone()]))),
        BlockerRelationKind::Ancestor
    );
    svc.add_blocker(&other.id, &s.id).unwrap();
    assert!(matches!(svc.add_blocker(&s.id, &other.id), Err(OsError::BlockerCycle)));
    // adding an edge twice changes nothing
    svc.add_blocker(&other.id, &s.id).unwrap();
    assert_eq!(svc.store.all_blockers().len(), 1);
    // cycles and depth when a task is moved
    assert!(matches!(
        svc.update(&m.id, &UpdateTaskInput { parent_id: Some(s.id.clone()), ..Default::default() }),
        Err(OsError::ParentCycle)
    ));
    assert!(matches!(
        svc.update(&t.id, &UpdateTaskInput { parent_id: Some(t.id.clone()), ..Default::default() }),
        Err(OsError::ParentCycle)
    ));
    assert!(matches!(
        svc.update(&m.id, &UpdateTaskInput { parent_id: Some(other.id.clone()), ..Default::default() }),
        Err(OsError::MaxDepthExceeded)
    ));
    let moved = svc
        .update(&s.id, &UpdateTaskInput { parent_id: Some(other.id.clone()), ..Default::default() });
    // S blocks `other`: it may still be moved under it, and is then one level down
    let moved = moved.unwrap();
    assert_eq!(moved.depth, Some(1));
    assert_eq!(moved.parent_id, Some(other.id.clone()));
    // lifecycle refusals
    assert!(matches!(svc.complete(&m.id, None), Err(OsError::PendingChildren)));
    assert!(matches!(svc.cancel(&m.id), Err(OsError::PendingChildren)));
    match svc.reopen(&t.id) {
        Err(OsError::CannotReopenActive { state }) => assert_eq!(state, "Pending"),
        other => panic!("expected CannotReopenActive, got {:?}", other),
    }
    svc.start(&t.id).unwrap();
    match svc.reopen(&t.id) {
        Err(OsError::CannotReopenActive { state }) => assert_eq!(state, "InProgress"),
        other => panic!("expected CannotReopenActive, got {:?}", other),
    }
    svc.cancel(&t.id).unwrap();
    assert!(matches!(svc.reopen(&t.id), Err(OsError::CannotReopenCancelled)));
    match svc.create(&input("late", Some(&t.id), 0, vec![])) {
        Err(OsError::CannotAttachChildToInactiveParent { parent_id, state }) => {
            assert_eq!(parent_id, t.id);
            assert_eq!(state, "Cancelled");
        }
        other => panic!("expected CannotAttachChildToInactiveParent, got {:?}", other),
    }
    svc.archive(&t.id).unwrap();
    assert!(matches!(svc.reopen(&t.id), Err(OsError::CannotModifyArchived)));
    assert!(matches!(
        svc.update(&t.id, &UpdateTaskInput { description: Some("n".to_string()), ..Default::default() }),
        Err(OsError::CannotModifyArchived)
    ));
    assert!(matches!(svc.add_blocker(&t.id, &other.id), Err(OsError::CannotModifyArchived)));
    assert!(matches!(svc.remove_blocker(&t.id, &other.id), Err(OsError::CannotModifyArchived)));
    assert!(matches!(svc.archive(&t.id), Err(OsError::AlreadyArchived)));
}

#[test]
fn records_after_the_transitions() {
    let mut svc = TaskService::new(Store::new());
    let id = TaskId::new();
    let created = svc.create_at(
        &CreateTaskInput {
            description: "d".to_string(),
            context: None,
            parent_id: None,
            priority: None,
            blocked_by: vec![],
        },
        id.clone(),
        at(10),
    )
    .unwrap();
    assert_eq!(created.priority, 1);
    assert_eq!(created.context, "");
    assert_eq!(created.created_at, at(10));
    assert_eq!(created.updated_at, at(10));
    assert_eq!(created.depth, Some(0));
    assert_eq!(created.lifecycle_state(), LifecycleState::Pending);
    assert!(created.validate_lifecycle_invariants().is_ok());
    let started = svc.start_at(&id, at(11)).unwrap();
    assert_eq!(started.started_at, Some(at(11)));
    assert_eq!(started.lifecycle_state(), LifecycleState::InProgress);
    // starting again changes nothing
    let again = svc.start_at(&id, at(12)).unwrap();
    assert_eq!(again.started_at, Some(at(11)));
    assert_eq!(again.updated_at, at(11));
    let updated = svc
        .update_at(
            &id,
            &UpdateTaskInput {
                description: Some("e".to_string()),
                context: Some("c".to_string()),
                priority: Some(2),
                parent_id: None,
            },
            at(13),
        )
        .unwrap();
    assert_eq!(updated.description, "e");
    assert_eq!(updated.context, "c");
    assert_eq!(updated.priority, 2);
    assert_eq!(updated.updated_at, at(13));
    assert_eq!(updated.created_at, at(10));
    assert_eq!(updated.started_at, Some(at(11)));
    let done = svc
        .complete_with_learnings_at(&id, Some("r"), &vec![], Some("sha"), &vec![], at(14))
        .unwrap();
    assert_eq!(done.lifecycle_state(), LifecycleState::Completed);
    assert_eq!(done.completed_at, Some(at(14)));
    assert_eq!(done.commit_sha, Some("sha".to_string()));
    assert!(done.is_finished_for_hierarchy() && done.satisfies_blocker() && !done.is_active_for_work());
    assert!(matches!(svc.cancel_at(&id, at(15)), Err(OsError::CannotCancelCompleted)));
    let reopened = svc.reopen_at(&id, at(15)).unwrap();
    assert_eq!(reopened.lifecycle_state(), LifecycleState::Pending);
    assert!(reopened.completed_at.is_none() && reopened.started_at.is_none());
    assert_eq!(reopened.updated_at, at(15));
    assert!(matches!(svc.archive_at(&id, at(16)), Err(OsError::CannotArchiveActive)));
    let cancelled = svc.cancel_at(&id, at(16)).unwrap();
    assert_eq!(cancelled.lifecycle_state(), LifecycleState::Cancelled);
    assert_eq!(cancelled.cancelled_at, Some(at(16)));
    assert!(matches!(svc.cancel_at(&id, at(17)), Err(OsError::AlreadyCancelled)));
    let archived = svc.archive_at(&id, at(17)).unwrap();
    assert_eq!(archived.lifecycle_state(), LifecycleState::Archived);
    assert_eq!(archived.archived_at, Some(at(17)));
    assert!(archived.validate_lifecycle_invariants().is_ok());
    assert!(matches!(svc.cancel_at(&id, at(18)), Err(OsError::CannotModifyArchived)));
    // a record that breaks the rules is told so
    let mut broken = archived.clone();
    broken.completed = true;
    assert_eq!(
        broken.validate_lifecycle_invariants(),
        Err("Task cannot be both completed and cancelled".to_string())
    );
    broken.cancelled = false;
    assert_eq!(
        broken.validate_lifecycle_invariants(),
        Err("Completed task must have completed_at timestamp".to_string())
    );
    broken.completed = false;
    assert_eq!(
        broken.validate_lifecycle_invariants(),
        Err("Archived task must be completed or cancelled".to_string())
    );
    broken.cancelled = true;
    broken.cancelled_at = None;
    assert_eq!(
        broken.validate_lifecycle_invariants(),
        Err("Cancelled task must have cancelled_at timestamp".to_string())
    );
    broken.cancelled_at = Some(at(1));
    broken.archived_at = None;
    assert_eq!(
        broken.validate_lifecycle_invariants(),
        Err("Archived task must have archived_at timestamp".to_string())
    );
}

#[test]
fn clearing_vcs_fields_keeps_the_rest() {
    let mut svc = TaskService::new(Store::new());
    let t = svc.create(&input("T", None, 2, vec![])).unwrap();
    svc.store.set_bookmark(&t.id, "task/x", at(10));
    svc.store.set_start_commit(&t.id, "abc", at(11));
    svc.store.complete_task(&t.id, Some("done"), Some("def"), at(12)).unwrap();
    let before = svc.store.get_task(&t.id).unwrap();
    assert_eq!(before.bookmark.as_deref(), Some("task/x"));
    assert_eq!(before.start_commit.as_deref(), Some("abc"));
    assert_eq!(before.commit_sha.as_deref(), Some("def"));
    svc.store.clear_vcs_fields(&t.id, at(13));
    let after = svc.store.get_task(&t.id).unwrap();
    assert_eq!(after.bookmark, None);
    assert_eq!(after.start_commit, None);
    assert_eq!(after.commit_sha, None);
    assert_eq!(after.updated_at, at(13));
    assert!(after.completed);
    assert_eq!(after.result.as_deref(), Some("done"));
    assert_eq!(after.priority, 2);
    assert_eq!(after.description, "T");
    // a missing task changes nothing
    let other = TaskId::new();
    svc.store.clear_vcs_fields(&other, at(14));
    assert!(!svc.store.task_exists(&other));
    assert_eq!(svc.store.get_task(&t.id).unwrap().updated_at, at(13));
}

#[test]
fn removing_a_blocker_from_all_counts_the_edges() {
    let mut svc = TaskService::new(Store::new());
    let b = svc.create(&input("B", None, 1, vec![])).unwrap();
    let c = svc.create(&input("C", None, 1, vec![])).unwrap();
    let x = svc.create(&input("X", None, 1, vec![b.id.clone(), c.id.clone()])).unwrap();
    let y = svc.create(&input("Y", None, 1, vec![b.id.clone()])).unwrap();
    assert_eq!(svc.store.remove_blocker_from_all(&b.id), 2);
    assert_eq!(svc.store.get_blockers(&x.id), vec![c.id.clone()]);
    assert_eq!(svc.store.get_blockers(&y.id), Vec::<TaskId>::new());
    assert_eq!(svc.store.get_blocking(&b.id), Vec::<TaskId>::new());
    assert_eq!(svc.store.get_blocking(&c.id), vec![x.id.clone()]);
    assert_eq!(svc.store.remove_blocker_from_all(&b.id), 0);
}

#[test]
fn a_backend_is_clean_where_its_status_lists_no_file() {
    let backend = Recorder::new();
    assert_eq!(backend.is_clean().unwrap(), true);
    assert_eq!(TaskId::default().as_str().len(), 31);
    assert!(TaskId::default().as_str().starts_with("task_"));
    assert!(LearningId::default().as_str().starts_with("lrn_"));
}

#[test]
fn nothing_is_ready_under_a_task_with_a_blocked_ancestor() {
    let mut svc = TaskService::new(Store::new());
    let b = svc.create(&input("B", None, 0, vec![])).unwrap();
    let m = svc.create(&input("M", None, 0, vec![b.id.clone()])).unwrap();
    let t = svc.create(&input("T", Some(&m.id), 0, vec![])).unwrap();
    assert_eq!(svc.next_ready(Some(&t.id)).unwrap(), None);
    assert_eq!(svc.next_ready(None).unwrap(), Some(b.id.clone()));
    svc.complete(&b.id, None).unwrap();
    assert_eq!(svc.next_ready(Some(&t.id)).unwrap(), Some(t.id.clone()));
    assert!(!svc.store.effectively_blocked(&t.id));
}

#[test]
fn a_cancelled_task_is_not_completed() {
    let mut svc = TaskService::new(Store::new());
    let t = svc.create(&input("T", None, 1, vec![])).unwrap();
    svc.cancel(&t.id).unwrap();
    assert!(matches!(svc.complete(&t.id, Some("done")), Err(OsError::CannotCompleteCancelled)));
    let ids = vec![LearningId::new(), LearningId::new()];
    assert!(matches!(
        svc.complete_with_learnings_at(&t.id, None, &vec!["L".to_string()], None, &ids, at(5)),
        Err(OsError::CannotCompleteCancelled)
    ));
    let after = svc.get(&t.id).unwrap();
    assert!(after.cancelled);
    assert!(!after.completed);
    assert_eq!(after.completed_at, None);
    assert_eq!(after.result, None);
    assert!(svc.store.list_learnings(&t.id).is_empty());
    assert!(after.validate_lifecycle_invariants().is_ok());
}

#[test]
fn completion_hands_back_result_and_time() {
    let mut wf = TaskWorkflowService::new(Store::new(), Recorder::new());
    let m = wf.task_service.create(&input("M", None, 0, vec![])).unwrap();
    let a = wf.task_service.create(&input("A", Some(&m.id), 0, vec![])).unwrap();
    let _b = wf.task_service.create(&input("B", Some(&m.id), 1, vec![])).unwrap();
    let done = wf.complete_with_learnings(&a.id, Some("shipped"), &vec![]).unwrap();
    assert!(done.completed);
    assert!(!done.cancelled);
    assert!(done.completed_at.is_some());
    assert_eq!(done.result.as_deref(), Some("shipped"));
    assert_eq!(done.commit_sha.as_deref(), Some("head-1"));
    assert_eq!(done.depth, Some(1));
    // the sibling is pending: the milestone stays open
    assert!(!wf.task_service.get(&m.id).unwrap().completed);
}

#[test]
fn the_walk_up_completes_every_ancestor_that_is_ready() {
    let mut wf = TaskWorkflowService::new(Store::new(), Recorder::new());
    let (m, t, s) = chain(&mut wf.task_service);
    let other = wf.task_service.create(&input("other", None, 2, vec![])).unwrap();
    wf.complete_with_learnings(&s.id, None, &vec![]).unwrap();
    let parent = wf.task_service.get(&t.id).unwrap();
    assert!(parent.completed);
    // a parent that is no milestone is completed under the current commit
    assert_eq!(parent.commit_sha.as_deref(), Some("head-1"));
    assert!(wf.task_service.get(&m.id).unwrap().completed);
    assert!(!wf.task_service.get(&other.id).unwrap().completed);
    let calls = wf.vcs.calls();
    assert!(calls.iter().any(|c| c.starts_with("commit:Complete: S")));
    assert!(calls.iter().any(|c| c.starts_with("commit:Milestone: M")));
}

#[test]
fn the_walk_up_ends_at_a_blocked_ancestor() {
    let mut wf = TaskWorkflowService::new(Store::new(), Recorder::new());
    let b = wf.task_service.create(&input("B", None, 2, vec![])).unwrap();
    let (m, t, s) = chain(&mut wf.task_service);
    wf.task_service.add_blocker(&t.id, &b.id).unwrap();
    // S is effectively blocked through T; the store completes it all the same
    wf.task_service.complete(&s.id, None).unwrap();
    assert_eq!(wf.bubble_step(&t.id).unwrap(), false);
    assert!(!wf.task_service.get(&t.id).unwrap().completed);
    assert!(!wf.task_service.get(&m.id).unwrap().completed);
}

#[test]
fn the_walk_up_ends_at_a_cancelled_parent() {
    let mut wf = TaskWorkflowService::new(Store::new(), Recorder::new());
    let (m, t, s) = chain(&mut wf.task_service);
    let s2 = wf.task_service.create(&input("S2", Some(&t.id), 1, vec![])).unwrap();
    wf.task_service.cancel(&s.id).unwrap();
    wf.task_service.cancel(&s2.id).unwrap();
    let done = wf.task_service.cancel(&t.id).unwrap();
    assert!(done.cancelled);
    assert!(!wf.bubbles_to(&t.id));
    assert_eq!(wf.bubble_step(&t.id).unwrap(), false);
    let after = wf.task_service.get(&t.id).unwrap();
    assert!(after.cancelled && !after.completed);
    assert!(!wf.task_service.get(&m.id).unwrap().completed);
}

#[test]
fn a_failed_checkout_on_start_is_handed_on() {
    let mut vcs = Recorder::new();
    vcs.fail_checkout = Some(|| VcsError::DirtyWorkingCopy);
    let mut wf = TaskWorkflowService::new(Store::new(), vcs);
    let (m, t, s) = chain(&mut wf.task_service);
    assert!(matches!(wf.start(&s.id), Err(OsError::DirtyWorkingCopy)));
    for id in [&m.id, &t.id, &s.id] {
        let task = wf.task_service.get(id).unwrap();
        assert_eq!(task.started_at, None);
        assert_eq!(task.bookmark, None);
        assert_eq!(task.start_commit, None);
    }
}

#[test]
fn refusals_to_start_say_why() {
    let mut wf = TaskWorkflowService::new(Store::new(), Recorder::new());
    let a = wf.task_service.create(&input("A", None, 0, vec![])).unwrap();
    let b = wf.task_service.create(&input("B", None, 1, vec![])).unwrap();
    let w = wf.task_service.create(&input("W", None, 2, vec![a.id.clone(), b.id.clone()])).unwrap();
    match wf.start(&w.id) {
        Err(OsError::NotNextReady { message, next_ready, reason, .. }) => {
            assert_eq!(next_ready, Some(a.id.clone()));
            assert!(matches!(reason, NotReadyReason::Blocked { .. }));
            assert_eq!(
                message,
                format!(
                    "Cannot start 'W' - blocked by {}, {}. Start '{}' instead.",
                    a.id.as_str(),
                    b.id.as_str(),
                    a.id.as_str()
                )
            );
        }
        other => panic!("expected NotNextReady, got {:?}", other),
    }
    // nothing else is ready
    wf.task_service.cancel(&a.id).unwrap();
    wf.task_service.cancel(&b.id).unwrap();
    match wf.start(&w.id) {
        Err(OsError::NotNextReady { message, next_ready, .. }) => {
            assert_eq!(next_ready, None);
            assert_eq!(
                message,
                format!(
                    "Cannot start 'W' - blocked by {}, {}. No ready tasks available.",
                    a.id.as_str(),
                    b.id.as_str()
                )
            );
        }
        other => panic!("expected NotNextReady, got {:?}", other),
    }
    // a task whose only child is cancelled is a leaf; one with a blocked child has nothing ready
    let m = wf.task_service.create(&input("M", None, 0, vec![])).unwrap();
    let _c = wf.task_service.create(&input("C", Some(&m.id), 0, vec![a.id.clone()])).unwrap();
    match wf.start(&m.id) {
        Err(OsError::NotNextReady { message, reason, .. }) => {
            assert!(matches!(reason, NotReadyReason::NoReadyTasksInSubtree));
            assert_eq!(
                message,
                "Cannot start 'M' - no ready tasks in subtree (all complete or blocked)."
            );
        }
        other => panic!("expected NotNextReady, got {:?}", other),
    }
}

#[test]
fn completing_twice_leaves_one_learning_on_the_parent() {
    let mut wf = TaskWorkflowService::new(Store::new(), Recorder::new());
    let p = wf.task_service.create(&input("P", None, 0, vec![])).unwrap();
    let t = wf.task_service.create(&input("T", Some(&p.id), 0, vec![])).unwrap();
    wf.complete_with_learnings(&t.id, None, &vec!["note".to_string()]).unwrap();
    wf.complete_with_learnings(&t.id, None, &vec!["note".to_string()]).unwrap();
    let on_parent = wf.task_service.store.list_learnings(&p.id);
    assert_eq!(on_parent.len(), 1);
    assert_eq!(on_parent[0].content, "note");
    assert_eq!(on_parent[0].source_task_id, Some(t.id.clone()));
    let own = wf.task_service.store.list_learnings(&t.id);
    assert_eq!(own.len(), 1);
    assert_eq!(wf.task_service.store.all_learnings().len(), 2);
    // the walk up completed the milestone
    assert!(wf.task_service.get(&p.id).unwrap().completed);
}

#[test]
fn the_walk_up_passes_over_a_completed_parent() {
    let mut wf = TaskWorkflowService::new(Store::new(), Recorder::new());
    let b = wf.task_service.create(&input("B", None, 2, vec![])).unwrap();
    let g = wf.task_service.create(&input("G", None, 0, vec![b.id.clone()])).unwrap();
    let p = wf.task_service.create(&input("P", Some(&g.id), 0, vec![])).unwrap();
    let c = wf.task_service.create(&input("c", Some(&p.id), 0, vec![])).unwrap();
    // G waits for B: the store completes c, P is completed by hand, G stays open
    wf.task_service.complete(&c.id, None).unwrap();
    wf.task_service.complete(&p.id, Some("by hand")).unwrap();
    assert!(!wf.task_service.get(&g.id).unwrap().completed);
    wf.task_service.complete(&b.id, None).unwrap();
    wf.task_service.reopen(&c.id).unwrap();
    wf.complete(&c.id, None).unwrap();
    // P is passed over as it is, and G, with all children finished, is completed
    let parent = wf.task_service.get(&p.id).unwrap();
    assert!(parent.completed);
    assert_eq!(parent.result.as_deref(), Some("by hand"));
    assert!(wf.task_service.get(&g.id).unwrap().completed);
    assert_eq!(wf.bubble_step(&p.id).unwrap(), true);
}

#[test]
fn a_parent_without_learnings_is_completed_without_fail() {
    let mut vcs = Recorder::new();
    vcs.fail_commit = Some(|| VcsError::OperationFailed("no".to_string()));
    let mut wf = TaskWorkflowService::new(Store::new(), vcs);
    let (m, t, s) = chain(&mut wf.task_service);
    wf.task_service.complete(&s.id, None).unwrap();
    // T is no milestone and holds no learning: no commit, no identifier, no failure
    assert_eq!(wf.bubble_step(&t.id).unwrap(), true);
    assert!(wf.task_service.get(&t.id).unwrap().completed);
    // the milestone needs a commit, which fails: nothing changes
    let before = wf.task_service.store.all_tasks();
    assert!(matches!(wf.bubble_step(&m.id), Err(OsError::Vcs(VcsError::OperationFailed(_)))));
    let after = wf.task_service.store.all_tasks();
    assert_eq!(before.len(), after.len());
    assert!(!wf.task_service.get(&m.id).unwrap().completed);
    // completion without learnings of a task that holds none succeeds at once
    let mut svc = TaskService::new(Store::new());
    let x = svc.create(&input("X", None, 1, vec![])).unwrap();
    assert!(svc.complete(&x.id, Some("r")).is_ok());
}

#[test]
fn the_cleanup_checks_out_where_the_task_was_started() {
    let mut svc = TaskService::new(Store::new());
    let (m, t, s) = chain(&mut svc);
    svc.store.set_start_commit(&t.id, "t-start", at(3));
    svc.store.set_start_commit(&s.id, "s-start", at(4));
    let below = svc.store.get_all_descendants(&m.id);
    type W = TaskWorkflowService<Recorder>;
    assert_eq!(
        W::cleanup_target(&Some("own".to_string()), &below, Some("head".to_string())),
        Some("own".to_string())
    );
    assert_eq!(W::cleanup_target(&None, &below, Some("head".to_string())), Some("t-start".to_string()));
    assert_eq!(W::cleanup_target(&None, &vec![], Some("head".to_string())), Some("head".to_string()));
    assert_eq!(W::cleanup_target(&None, &vec![], None), None);
    // through the workflow: the task that was started is checked out at its start commit
    let mut wf = TaskWorkflowService::new(Store::new(), Recorder::new());
    let a = wf.task_service.create(&input("A", None, 0, vec![])).unwrap();
    let x = wf.task_service.create(&input("X", Some(&a.id), 0, vec![])).unwrap();
    let _y = wf.task_service.create(&input("Y", Some(&a.id), 1, vec![])).unwrap();
    wf.task_service.store.set_bookmark(&x.id, "task/x", at(1));
    wf.task_service.store.set_start_commit(&x.id, "x-start", at(1));
    wf.complete(&x.id, None).unwrap();
    assert!(wf.vcs.calls().contains(&"checkout:x-start".to_string()));
    assert_eq!(wf.task_service.get(&x.id).unwrap().bookmark, None);
}

#[test]
fn a_blocker_that_is_not_stored_closes_no_cycle() {
    let mut svc = TaskService::new(Store::new());
    let a = svc.create(&input("A", None, 0, vec![])).unwrap();
    let b = svc.create(&input("B", None, 0, vec![a.id.clone()])).unwrap();
    let stranger = TaskId::new();
    assert!(!would_create_blocker_cycle(&svc.store, &a.id, &stranger));
    assert!(would_create_blocker_cycle(&svc.store, &stranger, &stranger));
    // B waits for A: an edge from A to B would close a cycle, one from B to A would not
    assert!(would_create_blocker_cycle(&svc.store, &a.id, &b.id));
    assert!(!would_create_blocker_cycle(&svc.store, &b.id, &a.id));
}
