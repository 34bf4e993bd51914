use overseer::error::OsError;
use overseer::id::{LearningId, TaskId};
use overseer::store::Store;
use overseer::types::{CreateTaskInput, Learning, Task, Timestamp};
use overseer::context::{InheritedLearnings, ProgressiveContext, TaskWithContext};

#[allow(dead_code)]
fn create_task(store: &mut Store, input: &CreateTaskInput) -> Result<Task, OsError> {
    store.create_task(input, TaskId::new(), Timestamp::now())
}

#[allow(dead_code)]
fn delete_task(store: &mut Store, id: &TaskId) -> Result<(), OsError> {
    store.delete_task(id);
    Ok(())
}

#[allow(dead_code)]
fn add_learning(
    store: &mut Store,
    task_id: &TaskId,
    content: &str,
    source_task_id: Option<&TaskId>,
) -> Result<Learning, OsError> {
    store.add_learning(task_id, content, source_task_id, LearningId::new(), Timestamp::now())
}

#[allow(dead_code)]
fn get_learning(store: &Store, id: &LearningId) -> Result<Option<Learning>, OsError> {
    Ok(store.get_learning(id))
}

#[allow(dead_code)]
fn list_learnings(store: &Store, task_id: &TaskId) -> Result<Vec<Learning>, OsError> {
    Ok(store.list_learnings(task_id))
}

#[allow(dead_code)]
fn delete_learning(store: &mut Store, id: &LearningId) -> Result<(), OsError> {
    store.delete_learning(id);
    Ok(())
}


fn get_ancestor_chain(store: &Store, task_id: &TaskId) -> Result<Vec<Task>, OsError> {
    Ok(overseer::context::get_ancestor_chain(store, task_id))
}

fn build_progressive_context(store: &Store, task: &Task) -> Result<ProgressiveContext, OsError> {
    Ok(overseer::context::build_progressive_context(store, task))
}

fn build_inherited_learnings(store: &Store, task: &Task) -> Result<InheritedLearnings, OsError> {
    Ok(overseer::context::build_inherited_learnings(store, task))
}

fn get_task_with_context(store: &Store, task: Task) -> Result<TaskWithContext, OsError> {
    Ok(overseer::context::get_task_with_context(store, task))
}

#[test]
fn test_get_ancestor_chain_single_task() {
    let mut conn = Store::new();
    let task = create_task(&mut conn,
        &CreateTaskInput {
            description: "milestone".to_string(),
            context: Some("milestone context".to_string()),
            ..Default::default()
        },
    )
    .unwrap();

    let chain = get_ancestor_chain(&conn, &task.id).unwrap();
    assert_eq!(chain.len(), 1);
    assert_eq!(chain[0].id, task.id);
}

#[test]
fn test_get_ancestor_chain_three_levels() {
    let mut conn = Store::new();

    let milestone = create_task(&mut conn,
        &CreateTaskInput {
            description: "milestone".to_string(),
            context: Some("milestone context".to_string()),
            ..Default::default()
        },
    )
    .unwrap();

    let parent = create_task(&mut conn,
        &CreateTaskInput {
            description: "parent".to_string(),
            context: Some("parent context".to_string()),
            parent_id: Some(milestone.id.clone()),
            ..Default::default()
        },
    )
    .unwrap();

    let child = create_task(&mut conn,
        &CreateTaskInput {
            description: "child".to_string(),
            context: Some("child context".to_string()),
            parent_id: Some(parent.id.clone()),
            ..Default::default()
        },
    )
    .unwrap();

    let chain = get_ancestor_chain(&conn, &child.id).unwrap();
    assert_eq!(chain.len(), 3);
    assert_eq!(chain[0].id, child.id);
    assert_eq!(chain[1].id, parent.id);
    assert_eq!(chain[2].id, milestone.id);
}

#[test]
fn test_build_progressive_context_milestone() {
    let mut conn = Store::new();
    let milestone = create_task(&mut conn,
        &CreateTaskInput {
            description: "milestone".to_string(),
            context: Some("milestone context".to_string()),
            ..Default::default()
        },
    )
    .unwrap();

    let ctx = build_progressive_context(&conn, &milestone).unwrap();
    assert_eq!(ctx.own, "milestone context");
    assert!(ctx.parent.is_none());
    assert!(ctx.milestone.is_none());
}

#[test]
fn test_build_progressive_context_parent() {
    let mut conn = Store::new();

    let milestone = create_task(&mut conn,
        &CreateTaskInput {
            description: "milestone".to_string(),
            context: Some("milestone context".to_string()),
            ..Default::default()
        },
    )
    .unwrap();

    let parent = create_task(&mut conn,
        &CreateTaskInput {
            description: "parent".to_string(),
            context: Some("parent context".to_string()),
            parent_id: Some(milestone.id),
            ..Default::default()
        },
    )
    .unwrap();

    let ctx = build_progressive_context(&conn, &parent).unwrap();
    assert_eq!(ctx.own, "parent context");
    assert!(ctx.parent.is_none());
    assert_eq!(ctx.milestone, Some("milestone context".to_string()));
}

#[test]
fn test_build_progressive_context_child() {
    let mut conn = Store::new();

    let milestone = create_task(&mut conn,
        &CreateTaskInput {
            description: "milestone".to_string(),
            context: Some("milestone context".to_string()),
            ..Default::default()
        },
    )
    .unwrap();

    let parent = create_task(&mut conn,
        &CreateTaskInput {
            description: "parent".to_string(),
            context: Some("parent context".to_string()),
            parent_id: Some(milestone.id),
            ..Default::default()
        },
    )
    .unwrap();

    let child = create_task(&mut conn,
        &CreateTaskInput {
            description: "child".to_string(),
            context: Some("child context".to_string()),
            parent_id: Some(parent.id),
            ..Default::default()
        },
    )
    .unwrap();

    let ctx = build_progressive_context(&conn, &child).unwrap();
    assert_eq!(ctx.own, "child context");
    assert_eq!(ctx.parent, Some("parent context".to_string()));
    assert_eq!(ctx.milestone, Some("milestone context".to_string()));
}

#[test]
fn test_build_progressive_context_empty_contexts() {
    let mut conn = Store::new();

    let milestone = create_task(&mut conn,
        &CreateTaskInput {
            description: "milestone".to_string(),
            context: Some("".to_string()),
            ..Default::default()
        },
    )
    .unwrap();

    let parent = create_task(&mut conn,
        &CreateTaskInput {
            description: "parent".to_string(),
            context: Some("".to_string()),
            parent_id: Some(milestone.id),
            ..Default::default()
        },
    )
    .unwrap();

    let child = create_task(&mut conn,
        &CreateTaskInput {
            description: "child".to_string(),
            context: Some("child context".to_string()),
            parent_id: Some(parent.id),
            ..Default::default()
        },
    )
    .unwrap();

    let ctx = build_progressive_context(&conn, &child).unwrap();
    assert_eq!(ctx.own, "child context");
    assert!(ctx.parent.is_none());
    assert!(ctx.milestone.is_none());
}

#[test]
fn test_build_inherited_learnings_no_learnings() {
    let mut conn = Store::new();
    let task = create_task(&mut conn,
        &CreateTaskInput {
            description: "task".to_string(),
            ..Default::default()
        },
    )
    .unwrap();

    let learnings = build_inherited_learnings(&conn, &task).unwrap();
    assert!(learnings.own.is_empty());
    assert!(learnings.parent.is_empty());
    assert!(learnings.milestone.is_empty());
}

#[test]
fn test_build_inherited_learnings_own_only() {
    let mut conn = Store::new();
    let task = create_task(&mut conn,
        &CreateTaskInput {
            description: "task".to_string(),
            ..Default::default()
        },
    )
    .unwrap();

    add_learning(&mut conn, &task.id, "own learning", None).unwrap();

    let learnings = build_inherited_learnings(&conn, &task).unwrap();
    assert_eq!(learnings.own.len(), 1);
    assert_eq!(learnings.own[0].content, "own learning");
    assert!(learnings.parent.is_empty());
    assert!(learnings.milestone.is_empty());
}

#[test]
fn test_build_inherited_learnings_with_parent() {
    let mut conn = Store::new();

    let milestone = create_task(&mut conn,
        &CreateTaskInput {
            description: "milestone".to_string(),
            ..Default::default()
        },
    )
    .unwrap();
    add_learning(&mut conn, &milestone.id, "milestone learning", None).unwrap();

    let parent = create_task(&mut conn,
        &CreateTaskInput {
            description: "parent".to_string(),
            parent_id: Some(milestone.id),
            ..Default::default()
        },
    )
    .unwrap();
    add_learning(&mut conn, &parent.id, "parent learning", None).unwrap();

    let child = create_task(&mut conn,
        &CreateTaskInput {
            description: "child".to_string(),
            parent_id: Some(parent.id),
            ..Default::default()
        },
    )
    .unwrap();
    add_learning(&mut conn, &child.id, "child learning", None).unwrap();

    let learnings = build_inherited_learnings(&conn, &child).unwrap();
    assert_eq!(learnings.own.len(), 1);
    assert_eq!(learnings.own[0].content, "child learning");
    assert_eq!(learnings.parent.len(), 1);
    assert_eq!(learnings.parent[0].content, "parent learning");
    assert_eq!(learnings.milestone.len(), 1);
    assert_eq!(learnings.milestone[0].content, "milestone learning");
}

#[test]
fn test_get_task_with_context() {
    let mut conn = Store::new();

    let milestone = create_task(&mut conn,
        &CreateTaskInput {
            description: "milestone".to_string(),
            context: Some("milestone context".to_string()),
            ..Default::default()
        },
    )
    .unwrap();
    add_learning(&mut conn, &milestone.id, "milestone learning", None).unwrap();

    let parent = create_task(&mut conn,
        &CreateTaskInput {
            description: "parent".to_string(),
            context: Some("parent context".to_string()),
            parent_id: Some(milestone.id),
            ..Default::default()
        },
    )
    .unwrap();

    let child = create_task(&mut conn,
        &CreateTaskInput {
            description: "child".to_string(),
            context: Some("child context".to_string()),
            parent_id: Some(parent.id),
            ..Default::default()
        },
    )
    .unwrap();

    let task_with_ctx = get_task_with_context(&conn, child.clone()).unwrap();

    assert_eq!(task_with_ctx.task.id, child.id);
    assert_eq!(task_with_ctx.progressive_context.own, "child context");
    assert_eq!(
        task_with_ctx.progressive_context.parent,
        Some("parent context".to_string())
    );
    assert_eq!(
        task_with_ctx.progressive_context.milestone,
        Some("milestone context".to_string())
    );
    assert_eq!(task_with_ctx.inherited_learnings.milestone.len(), 1);
}
