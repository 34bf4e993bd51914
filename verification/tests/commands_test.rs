use std::cell::RefCell;

use overseer::commands::data::{calculate_depth, export_snapshot, import_snapshot, ExportData};
use overseer::commands::learning::{self, parse_learning_id, AddArgs, LearningCommand, LearningResult};
use overseer::commands::task::{
    handle, handle_delete, handle_workflow, parse_task_id, BlockArgs, CompleteArgs, CreateArgs,
    ListArgs, NextReadyArgs, ProgressArgs, SearchArgs, TaskCommand, TaskProgressResult,
    TaskResult, TaskStatus, TreeArgs, UnblockArgs, UpdateArgs,
};
use overseer::commands::vcs::{self, CommitArgs, DiffArgs, LogArgs, VcsCommand, VcsResult};
use overseer::context::{build_progressive_context, get_ancestor_chain};
use overseer::error::OsError;
use overseer::id::{LearningId, TaskId};
use overseer::store::{BlockerRelation, Store};
use overseer::task_service::TaskService;
use overseer::types::{CreateTaskInput, ListTasksFilter, Task, Timestamp};
use overseer::vcs::{
    detect, detect_vcs_type, status_is_clean, ChangeType, CommitResult, DiffEntry, DirMarks,
    FileStatus, FileStatusKind, LogEntry, VcsBackend, VcsError, VcsInfo, VcsStatus, VcsType,
};
use overseer::workflow::TaskWorkflowService;

struct Fake {
    deleted: RefCell<Vec<String>>,
}

impl VcsBackend for Fake {
    fn vcs_type(&self) -> VcsType {
        VcsType::Jj
    }
    fn root(&self) -> String {
        "/fake".to_string()
    }
    fn status(&self) -> Result<VcsStatus, VcsError> {
        Ok(VcsStatus {
            files: vec![FileStatus { path: "a.rs".to_string(), status: FileStatusKind::Modified }],
            working_copy_id: Some("wc".to_string()),
        })
    }
    fn log(&self, limit: usize) -> Result<Vec<LogEntry>, VcsError> {
        Ok((0..limit.min(2))
            .map(|i| LogEntry {
                id: format!("c{}", i),
                description: "d".to_string(),
                author: "a".to_string(),
                timestamp: Timestamp { secs: i as i64, nanos: 0 },
            })
            .collect())
    }
    fn diff(&self, base: Option<&str>) -> Result<Vec<DiffEntry>, VcsError> {
        match base {
            Some("missing") => Err(VcsError::TargetNotFound("missing".to_string())),
            _ => Ok(vec![DiffEntry { path: "a.rs".to_string(), change_type: ChangeType::Added }]),
        }
    }
    fn commit(&self, message: &str) -> Result<CommitResult, VcsError> {
        if message.is_empty() {
            Err(VcsError::NothingToCommit)
        } else {
            Ok(CommitResult { id: "c9".to_string(), message: message.to_string() })
        }
    }
    fn current_commit_id(&self) -> Result<String, VcsError> {
        Ok("c0".to_string())
    }
    fn create_bookmark(&self, _name: &str, _target: Option<&str>) -> Result<(), VcsError> {
        Ok(())
    }
    fn delete_bookmark(&self, name: &str) -> Result<(), VcsError> {
        self.deleted.borrow_mut().push(name.to_string());
        Ok(())
    }
    fn list_bookmarks(&self, _prefix: Option<&str>) -> Result<Vec<String>, VcsError> {
        Ok(vec![])
    }
    fn checkout(&self, _target: &str) -> Result<(), VcsError> {
        Ok(())
    }
    fn squash(&self, message: &str) -> Result<CommitResult, VcsError> {
        self.commit(message)
    }
    fn rebase_onto(&self, _target: &str) -> Result<(), VcsError> {
        Ok(())
    }
    fn is_clean(&self) -> Result<bool, VcsError> {
        status_is_clean(self.status())
    }
}

fn fake() -> Fake {
    Fake { deleted: RefCell::new(vec![]) }
}

fn one(r: Result<TaskResult, OsError>) -> Task {
    match r {
        Ok(TaskResult::One(t)) => t,
        Ok(_) => panic!("expected one task"),
        Err(e) => panic!("expected one task, got {:?}", e),
    }
}

fn create(svc: &mut TaskService, description: &str, context: Option<&str>, parent: Option<&TaskId>, priority: Option<i32>) -> Task {
    one(handle(
        svc,
        TaskCommand::Create(CreateArgs {
            description: description.to_string(),
            context: context.map(|c| c.to_string()),
            parent: parent.cloned(),
            priority,
            blocked_by: vec![],
        }),
    ))
}

fn list_args() -> ListArgs {
    ListArgs {
        parent: None,
        ready: false,
        completed: false,
        milestones: false,
        tasks: false,
        subtasks: false,
        flat: false,
    }
}

fn many(r: Result<TaskResult, OsError>) -> Vec<String> {
    match r {
        Ok(TaskResult::Many(tasks)) => tasks.into_iter().map(|t| t.description).collect(),
        _ => panic!("expected many tasks"),
    }
}

#[test]
fn identifiers_from_the_command_line() {
    assert_eq!(
        parse_task_id("task_01ARZ3NDEKTSV4RRFFQ69G5FAV").unwrap().as_str(),
        "task_01ARZ3NDEKTSV4RRFFQ69G5FAV"
    );
    assert_eq!(
        parse_task_id("01ARZ3NDEKTSV4RRFFQ69G5FAV"),
        Err("Missing prefix: expected 'task_', got '01ARZ3NDEKTSV4RRFFQ69G5FAV'".to_string())
    );
    assert_eq!(parse_task_id("task_x"), Err("Invalid ULID format: x".to_string()));
    assert!(parse_learning_id("lrn_01ARZ3NDEKTSV4RRFFQ69G5FAV").is_ok());
    assert_eq!(
        parse_learning_id("task_01ARZ3NDEKTSV4RRFFQ69G5FAV"),
        Err("Missing prefix: expected 'lrn_', got 'task_01ARZ3NDEKTSV4RRFFQ69G5FAV'".to_string())
    );
    assert_eq!(TaskStatus::classify(true, true), TaskStatus::Completed);
    assert_eq!(TaskStatus::classify(false, true), TaskStatus::Blocked);
    assert_eq!(TaskStatus::classify(false, false), TaskStatus::Ready);
}

#[test]
fn task_commands_on_the_store() {
    let mut svc = TaskService::new(Store::new());
    let m = create(&mut svc, "Ship It", Some("The plan"), None, Some(0));
    let t = create(&mut svc, "Build", Some(""), Some(&m.id), None);
    let s = create(&mut svc, "compile", None, Some(&t.id), Some(2));
    let lone = create(&mut svc, "Write docs", None, None, Some(2));
    assert_eq!(t.priority, 1);
    // listings by depth and parent
    assert_eq!(many(handle(&mut svc, TaskCommand::List(list_args()))).len(), 4);
    let mut only = list_args();
    only.milestones = true;
    assert_eq!(many(handle(&mut svc, TaskCommand::List(only))), vec!["Ship It", "Write docs"]);
    let mut only = list_args();
    only.tasks = true;
    assert_eq!(many(handle(&mut svc, TaskCommand::List(only))), vec!["Build"]);
    let mut only = list_args();
    only.subtasks = true;
    assert_eq!(many(handle(&mut svc, TaskCommand::List(only))), vec!["compile"]);
    let mut only = list_args();
    only.parent = Some(m.id.clone());
    assert_eq!(many(handle(&mut svc, TaskCommand::List(only))), vec!["Build"]);
    // blocking and what is ready
    let blocked = one(handle(
        &mut svc,
        TaskCommand::Block(BlockArgs { id: s.id.clone(), by: lone.id.clone() }),
    ));
    assert_eq!(blocked.blocked_by, vec![lone.id.clone()]);
    assert!(blocked.effectively_blocked);
    let mut ready = list_args();
    ready.ready = true;
    assert_eq!(many(handle(&mut svc, TaskCommand::List(ready))), vec!["Ship It", "Build", "Write docs"]);
    match handle(&mut svc, TaskCommand::Progress(ProgressArgs { id: None })).unwrap() {
        TaskResult::Progress(p) => {
            assert_eq!(p, TaskProgressResult { total: 4, completed: 0, ready: 3, blocked: 1 })
        }
        _ => panic!("expected progress"),
    }
    match handle(&mut svc, TaskCommand::NextReady(NextReadyArgs { milestone: None })).unwrap() {
        TaskResult::MaybeOneWithContext(Some(found)) => assert_eq!(found.task.id, lone.id),
        _ => panic!("expected a ready task"),
    }
    match handle(&mut svc, TaskCommand::NextReady(NextReadyArgs { milestone: Some(m.id.clone()) }))
        .unwrap()
    {
        TaskResult::MaybeOneWithContext(None) => {}
        _ => panic!("expected nothing ready"),
    }
    svc.complete(&lone.id, None).unwrap();
    match handle(&mut svc, TaskCommand::Progress(ProgressArgs { id: Some(m.id.clone()) })).unwrap() {
        TaskResult::Progress(p) => {
            assert_eq!(p, TaskProgressResult { total: 3, completed: 0, ready: 3, blocked: 0 })
        }
        _ => panic!("expected progress"),
    }
    let mut done = list_args();
    done.completed = true;
    assert_eq!(many(handle(&mut svc, TaskCommand::List(done))), vec!["Write docs"]);
    let unblocked = one(handle(
        &mut svc,
        TaskCommand::Unblock(UnblockArgs { id: s.id.clone(), by: lone.id.clone() }),
    ));
    assert!(unblocked.blocked_by.is_empty());
    // get with context
    match handle(&mut svc, TaskCommand::Get { id: s.id.clone() }).unwrap() {
        TaskResult::OneWithContext(found) => {
            assert_eq!(found.task.depth, Some(2));
            assert_eq!(found.progressive_context.own, "");
            // the context of the parent task is empty and left out
            assert_eq!(found.progressive_context.parent, None);
            assert_eq!(found.progressive_context.milestone, Some("The plan".to_string()));
            // the chain that the task itself carries
            let chain = found.task.context_chain.unwrap();
            assert_eq!(chain.parent, Some("".to_string()));
            assert_eq!(chain.milestone, Some("The plan".to_string()));
        }
        _ => panic!("expected a task with context"),
    }
    // update, reopen, trees
    let updated = one(handle(
        &mut svc,
        TaskCommand::Update(UpdateArgs {
            id: s.id.clone(),
            description: Some("link".to_string()),
            context: None,
            priority: None,
            parent: None,
        }),
    ));
    assert_eq!(updated.description, "link");
    assert_eq!(updated.priority, 2);
    let reopened = one(handle(&mut svc, TaskCommand::Reopen { id: lone.id.clone() }));
    assert!(!reopened.completed);
    match handle(&mut svc, TaskCommand::Tree(TreeArgs { id: None })).unwrap() {
        TaskResult::Trees(trees) => {
            assert_eq!(trees.len(), 2);
            assert_eq!(trees[0].task.id, m.id);
            assert_eq!(trees[0].children[0].children[0].task.id, s.id);
            assert!(trees[0].children[0].children[0].children.is_empty());
            assert_eq!(trees[1].task.id, lone.id);
            assert!(trees[1].children.is_empty());
        }
        _ => panic!("expected trees"),
    }
    // the commands that need the backend are refused
    assert!(matches!(
        handle(&mut svc, TaskCommand::Start { id: s.id.clone() }),
        Err(OsError::NotARepository)
    ));
    assert!(matches!(
        handle(
            &mut svc,
            TaskCommand::Complete(CompleteArgs { id: s.id.clone(), result: None, learnings: vec![] })
        ),
        Err(OsError::NotARepository)
    ));
    assert!(matches!(
        handle(&mut svc, TaskCommand::Get { id: TaskId::new() }),
        Err(OsError::TaskNotFound(_))
    ));
    assert!(matches!(
        handle(&mut svc, TaskCommand::Tree(TreeArgs { id: Some(TaskId::new()) })),
        Err(OsError::TaskNotFound(_))
    ));
    assert!(matches!(
        handle(&mut svc, TaskCommand::Progress(ProgressArgs { id: Some(TaskId::new()) })),
        Err(OsError::TaskNotFound(_))
    ));
    assert!(matches!(handle(&mut svc, TaskCommand::Delete { id: m.id.clone() }), Ok(TaskResult::Deleted)));
    assert_eq!(many(handle(&mut svc, TaskCommand::List(list_args()))), vec!["Write docs"]);
}

#[test]
fn search_ignores_the_case_of_letters() {
    let mut svc = TaskService::new(Store::new());
    create(&mut svc, "Implement FEATURE flag", None, None, None);
    create(&mut svc, "Fix bug", Some("Feature request 12"), None, None);
    let third = create(&mut svc, "Write tests", None, None, None);
    svc.complete(&third.id, Some("featureless")).unwrap();
    create(&mut svc, "Plan", None, None, None);
    let find = |svc: &mut TaskService, q: &str| {
        many(handle(svc, TaskCommand::Search(SearchArgs { query: q.to_string() })))
    };
    assert_eq!(find(&mut svc, "feature").len(), 3);
    assert_eq!(find(&mut svc, "FEATURE").len(), 3);
    assert_eq!(find(&mut svc, "feature flag"), vec!["Implement FEATURE flag"]);
    assert_eq!(find(&mut svc, "FeAtUrE r"), vec!["Fix bug"]);
    assert_eq!(find(&mut svc, "featurel"), vec!["Write tests"]);
    assert!(find(&mut svc, "flagfeature").is_empty());
    assert!(find(&mut svc, "plans").is_empty());
    assert_eq!(find(&mut svc, "").len(), 4);
}

#[test]
fn workflow_and_delete_commands() {
    let mut wf = TaskWorkflowService::new(Store::new(), fake());
    let m = create(&mut wf.task_service, "M", None, None, Some(0));
    let t = create(&mut wf.task_service, "T", None, Some(&m.id), Some(0));
    let started = one(handle_workflow(&mut wf, TaskCommand::Start { id: m.id.clone() }));
    assert_eq!(started.id, t.id);
    let bookmark = started.bookmark.clone().unwrap();
    let listed = handle_workflow(&mut wf, TaskCommand::List(list_args()));
    assert_eq!(many(listed).len(), 2);
    // deleting the milestone deletes the bookmark of the task below it
    let gone = handle_delete(&mut wf.task_service, TaskCommand::Delete { id: m.id.clone() }, Some(&wf.vcs));
    assert!(matches!(gone, Ok(TaskResult::Deleted)));
    assert_eq!(*wf.vcs.deleted.borrow(), vec![bookmark]);
    assert!(wf.task_service.store.all_tasks().is_empty());
    let missing = handle_delete::<Fake>(&mut wf.task_service, TaskCommand::Delete { id: m.id.clone() }, None);
    assert!(matches!(missing, Err(OsError::TaskNotFound(_))));
    let u = create(&mut wf.task_service, "U", None, None, None);
    let done = one(handle_workflow(
        &mut wf,
        TaskCommand::Complete(CompleteArgs {
            id: u.id.clone(),
            result: Some("r".to_string()),
            learnings: vec!["l".to_string()],
        }),
    ));
    assert!(done.completed);
    assert_eq!(wf.task_service.store.list_learnings(&u.id).len(), 1);
}

#[test]
fn learning_commands() {
    let mut store = Store::new();
    let input = CreateTaskInput {
        description: "t".to_string(),
        context: None,
        parent_id: None,
        priority: None,
        blocked_by: vec![],
    };
    let t = store.create_task(&input, TaskId::new(), Timestamp { secs: 1, nanos: 0 }).unwrap();
    let id = LearningId::new();
    let added = learning::handle_at(
        &mut store,
        LearningCommand::Add(AddArgs { task_id: t.id.clone(), content: "c".to_string(), source: None }),
        id.clone(),
        Timestamp { secs: 2, nanos: 0 },
    );
    match added {
        Ok(LearningResult::One(l)) => {
            assert_eq!(l.id, id);
            assert_eq!(l.created_at, Timestamp { secs: 2, nanos: 0 });
            assert_eq!(l.source_task_id, None);
        }
        _ => panic!("expected one learning"),
    }
    // the same content again gives the learning that is there
    match learning::handle(
        &mut store,
        LearningCommand::Add(AddArgs { task_id: t.id.clone(), content: "c".to_string(), source: None }),
    ) {
        Ok(LearningResult::One(l)) => assert_eq!(l.id, id),
        _ => panic!("expected one learning"),
    }
    // an identifier that is taken
    let taken = learning::handle_at(
        &mut store,
        LearningCommand::Add(AddArgs { task_id: t.id.clone(), content: "d".to_string(), source: None }),
        id.clone(),
        Timestamp { secs: 3, nanos: 0 },
    );
    assert!(matches!(taken, Err(OsError::Database(_))));
    let missing = TaskId::new();
    let r = learning::handle(
        &mut store,
        LearningCommand::Add(AddArgs { task_id: missing.clone(), content: "c".to_string(), source: None }),
    );
    assert!(matches!(r, Err(OsError::TaskNotFound(_))));
    let r = learning::handle(
        &mut store,
        LearningCommand::Add(AddArgs {
            task_id: t.id.clone(),
            content: "e".to_string(),
            source: Some(missing.clone()),
        }),
    );
    assert!(matches!(r, Err(OsError::TaskNotFound(_))));
    learning::handle(
        &mut store,
        LearningCommand::Add(AddArgs {
            task_id: t.id.clone(),
            content: "older".to_string(),
            source: Some(t.id.clone()),
        }),
    )
    .unwrap();
    match learning::handle(&mut store, LearningCommand::List { task_id: t.id.clone() }) {
        Ok(LearningResult::Many(found)) => assert_eq!(found.len(), 2),
        _ => panic!("expected learnings"),
    }
    assert!(matches!(
        learning::handle(&mut store, LearningCommand::List { task_id: missing }),
        Err(OsError::TaskNotFound(_))
    ));
    assert!(matches!(
        learning::handle(&mut store, LearningCommand::Delete { id: id.clone() }),
        Ok(LearningResult::Deleted)
    ));
    assert!(store.get_learning(&id).is_none());
    assert_eq!(store.list_learnings(&t.id).len(), 1);
    // learnings come oldest first, whatever the order they were stored in
    store.add_learning(&t.id, "first", None, LearningId::new(), Timestamp { secs: 0, nanos: 5 }).unwrap();
    let contents: Vec<String> = store.list_learnings(&t.id).into_iter().map(|l| l.content).collect();
    assert_eq!(contents[0], "first");
}

#[test]
fn version_control_commands() {
    let info = || VcsInfo { vcs_type: VcsType::Jj, root: "/fake".to_string() };
    let backend = fake();
    match vcs::handle(VcsCommand::Detect, info(), Some(&backend)).unwrap() {
        VcsResult::Info(found) => {
            assert_eq!(found.vcs_type, VcsType::Jj);
            assert_eq!(found.root, "/fake");
        }
        _ => panic!("expected info"),
    }
    assert!(matches!(
        vcs::handle::<Fake>(VcsCommand::Detect, VcsInfo { vcs_type: VcsType::NoVcs, root: String::new() }, None),
        Ok(VcsResult::Info(_))
    ));
    assert!(matches!(
        vcs::handle::<Fake>(VcsCommand::Status, info(), None),
        Err(OsError::NotARepository)
    ));
    match vcs::handle(VcsCommand::Status, info(), Some(&backend)).unwrap() {
        VcsResult::Status(s) => assert_eq!(s.files.len(), 1),
        _ => panic!("expected status"),
    }
    match vcs::handle(VcsCommand::Log(LogArgs { limit: 1 }), info(), Some(&backend)).unwrap() {
        VcsResult::Log(entries) => assert_eq!(entries.len(), 1),
        _ => panic!("expected log"),
    }
    match vcs::handle(VcsCommand::Diff(DiffArgs { base: None }), info(), Some(&backend)).unwrap() {
        VcsResult::Diff(entries) => assert_eq!(entries[0].change_type, ChangeType::Added),
        _ => panic!("expected diff"),
    }
    assert!(matches!(
        vcs::handle(VcsCommand::Diff(DiffArgs { base: Some("missing".to_string()) }), info(), Some(&backend)),
        Err(OsError::Vcs(VcsError::TargetNotFound(_)))
    ));
    match vcs::handle(VcsCommand::Commit(CommitArgs { message: "m".to_string() }), info(), Some(&backend))
        .unwrap()
    {
        VcsResult::Commit(done) => assert_eq!(done.message, "m"),
        _ => panic!("expected commit"),
    }
    assert!(matches!(
        vcs::handle(VcsCommand::Commit(CommitArgs { message: String::new() }), info(), Some(&backend)),
        Err(OsError::Vcs(VcsError::NothingToCommit))
    ));
    assert!(matches!(vcs::answer::<u8>(Err(VcsError::DirtyWorkingCopy)), Err(OsError::DirtyWorkingCopy)));
    assert!(matches!(vcs::answer::<u8>(Err(VcsError::NotARepository)), Err(OsError::NotARepository)));
    assert!(matches!(vcs::answer(Ok(3u8)), Ok(3u8)));
    assert_eq!(backend.is_clean().unwrap(), false);
    assert!(matches!(
        status_is_clean(Ok(VcsStatus { files: vec![], working_copy_id: None })),
        Ok(true)
    ));
    assert!(matches!(status_is_clean(Err(VcsError::NoWorkingCopy)), Err(VcsError::NoWorkingCopy)));
}

fn task_row(id: &TaskId, parent: Option<&TaskId>, description: &str) -> Task {
    let mut t = Store::new()
        .create_task(
            &CreateTaskInput {
                description: description.to_string(),
                context: None,
                parent_id: None,
                priority: None,
                blocked_by: vec![],
            },
            id.clone(),
            Timestamp { secs: 1, nanos: 0 },
        )
        .unwrap();
    t.parent_id = parent.cloned();
    t
}

#[test]
fn stores_are_made_of_well_formed_parts_only() {
    let a = TaskId::new();
    let b = TaskId::new();
    let c = TaskId::new();
    let d = TaskId::new();
    let ok = Store::from_parts(
        vec![task_row(&b, Some(&a), "b"), task_row(&a, None, "a"), task_row(&c, Some(&b), "c")],
        vec![BlockerRelation { task_id: a.clone(), blocker_id: c.clone() }],
        vec![],
    );
    let store = ok.unwrap();
    assert_eq!(store.get_task_depth(&c), 2);
    assert_eq!(store.get_task_depth(&a), 0);
    assert_eq!(store.subtree_height(&a), 2);
    assert_eq!(store.subtree_height(&b), 1);
    assert_eq!(store.subtree_height(&c), 0);
    assert!(store.is_ancestor(&a, &c) && !store.is_ancestor(&c, &a));
    assert_eq!(store.ancestor_ids(&c), vec![b.clone(), a.clone()]);
    assert_eq!(store.get_all_descendants(&a).len(), 2);
    assert_eq!(get_ancestor_chain(&store, &d).len(), 0);
    let refused = |tasks: Vec<Task>, edges: Vec<BlockerRelation>| {
        assert!(matches!(Store::from_parts(tasks, edges, vec![]), Err(OsError::Database(_))));
    };
    // an identifier twice, a missing parent, a cycle of parents, too deep
    refused(vec![task_row(&a, None, "a"), task_row(&a, None, "again")], vec![]);
    refused(vec![task_row(&a, Some(&b), "a")], vec![]);
    refused(vec![task_row(&a, Some(&b), "a"), task_row(&b, Some(&a), "b")], vec![]);
    refused(vec![task_row(&a, Some(&a), "a")], vec![]);
    refused(
        vec![
            task_row(&a, None, "a"),
            task_row(&b, Some(&a), "b"),
            task_row(&c, Some(&b), "c"),
            task_row(&d, Some(&c), "d"),
        ],
        vec![],
    );
    // edges to nowhere, to the task itself, and twice
    refused(vec![task_row(&a, None, "a")], vec![BlockerRelation { task_id: a.clone(), blocker_id: b.clone() }]);
    refused(vec![task_row(&a, None, "a")], vec![BlockerRelation { task_id: a.clone(), blocker_id: a.clone() }]);
    refused(
        vec![task_row(&a, None, "a"), task_row(&b, None, "b")],
        vec![
            BlockerRelation { task_id: a.clone(), blocker_id: b.clone() },
            BlockerRelation { task_id: a.clone(), blocker_id: b.clone() },
        ],
    );
}

#[test]
fn import_restores_parents_first_or_nothing() {
    let mut source = TaskService::new(Store::new());
    let m = create(&mut source, "m", None, None, Some(2));
    let t = create(&mut source, "t", None, Some(&m.id), Some(0));
    let s = create(&mut source, "s", None, Some(&t.id), Some(1));
    let r = create(&mut source, "r", None, None, Some(0));
    source.add_blocker(&r.id, &s.id).unwrap();
    source.store.set_bookmark(&s.id, "task/s", Timestamp { secs: 9, nanos: 0 });
    let mut data: ExportData = export_snapshot(&source.store, Timestamp { secs: 3, nanos: 0 });
    // the document is in traversal order: by priority first, then by time
    let order: Vec<&str> = data.tasks.iter().map(|t| t.description.as_str()).collect();
    assert_eq!(order, vec!["t", "r", "s", "m"]);
    assert_eq!(calculate_depth(&data.tasks, &s.id), 2);
    assert_eq!(calculate_depth(&data.tasks, &t.id), 1);
    assert_eq!(calculate_depth(&data.tasks, &m.id), 0);
    assert_eq!(calculate_depth(&data.tasks, &TaskId::new()), 0);
    let mut target = Store::new();
    let held = target
        .create_task(
            &CreateTaskInput {
                description: "held".to_string(),
                context: None,
                parent_id: None,
                priority: None,
                blocked_by: vec![],
            },
            TaskId::new(),
            Timestamp { secs: 1, nanos: 0 },
        )
        .unwrap();
    import_snapshot(&mut target, &data, false).unwrap();
    let stored: Vec<String> = target.all_tasks().into_iter().map(|t| t.description).collect();
    // what was there stays in front; then the document by depth
    assert_eq!(stored, vec!["held", "r", "m", "t", "s"]);
    // bookmarks are not part of a document
    assert!(target.get_task(&s.id).unwrap().bookmark.is_none());
    assert_eq!(target.get_blockers(&r.id), vec![s.id.clone()]);
    // importing again replaces what the document names
    import_snapshot(&mut target, &data, false).unwrap();
    assert_eq!(target.all_tasks().len(), 5);
    assert_eq!(target.all_blockers().len(), 1);
    // a document whose parent is missing is refused, and the store stays as it was
    data.tasks.retain(|task| task.id != m.id);
    let r = import_snapshot(&mut target, &data, true);
    assert!(matches!(r, Err(OsError::Database(_))));
    assert_eq!(target.all_tasks().len(), 5);
    assert!(target.task_exists(&held.id));
    let all = ListTasksFilter { archived: None, ..Default::default() };
    assert_eq!(target.list_tasks(&all).len(), 5);
    let ctx = build_progressive_context(&target, &target.get_task(&t.id).unwrap());
    assert_eq!(ctx.parent, None);
    assert_eq!(ctx.milestone, None);
}

fn marks(path: &str, has_jj: bool, has_git: bool) -> DirMarks {
    DirMarks { path: path.to_string(), has_jj, has_git }
}

#[test]
fn test_detect_jj_repo() {
    let levels = vec![marks("/tmp/repo", true, false), marks("/tmp", false, false), marks("/", false, false)];
    let (vcs_type, root) = detect_vcs_type(&levels);
    assert_eq!(vcs_type, VcsType::Jj);
    assert_eq!(root.unwrap(), "/tmp/repo");
}

#[test]
fn test_detect_git_repo() {
    let levels = vec![marks("/tmp/repo", false, true), marks("/tmp", false, false), marks("/", false, false)];
    let (vcs_type, root) = detect_vcs_type(&levels);
    assert_eq!(vcs_type, VcsType::Git);
    assert_eq!(root.unwrap(), "/tmp/repo");
}

#[test]
fn test_jj_takes_precedence_over_git() {
    let levels = vec![marks("/tmp/repo", true, true), marks("/tmp", false, false), marks("/", false, false)];
    let (vcs_type, _) = detect_vcs_type(&levels);
    assert_eq!(vcs_type, VcsType::Jj);
}

#[test]
fn test_detect_no_vcs() {
    let levels = vec![marks("/tmp/plain", false, false), marks("/tmp", false, false), marks("/", false, false)];
    let (vcs_type, root) = detect_vcs_type(&levels);
    assert_eq!(vcs_type, VcsType::NoVcs);
    assert!(root.is_none());
    let info = detect(&levels);
    assert_eq!(info.vcs_type, VcsType::NoVcs);
    assert_eq!(info.root, "");
    assert_eq!(detect_vcs_type(&vec![]).0, VcsType::NoVcs);
}

#[test]
fn test_detect_in_subdirectory() {
    let levels = vec![
        marks("/tmp/repo/src/lib", false, false),
        marks("/tmp/repo/src", false, false),
        marks("/tmp/repo", true, false),
        marks("/tmp", false, false),
        marks("/", false, false),
    ];
    let (vcs_type, root) = detect_vcs_type(&levels);
    assert_eq!(vcs_type, VcsType::Jj);
    assert_eq!(root.unwrap(), "/tmp/repo");
    let info = detect(&levels);
    assert_eq!(info.vcs_type, VcsType::Jj);
    assert_eq!(info.root, "/tmp/repo");
}

#[test]
fn the_nearest_repository_wins() {
    let levels = vec![
        marks("/outer/inner/deep", false, false),
        marks("/outer/inner", false, true),
        marks("/outer", true, false),
        marks("/", false, false),
    ];
    let (vcs_type, root) = detect_vcs_type(&levels);
    assert_eq!(vcs_type, VcsType::Git);
    assert_eq!(root.unwrap(), "/outer/inner");
}
