use overseer::error::OsError;
use overseer::id::{LearningId, TaskId};
use overseer::store::Store;
use overseer::types::{CreateTaskInput, Learning, Task, Timestamp};
use overseer::task_service::TaskService;

#[allow(dead_code)]
fn create_task(store: &mut Store, input: &CreateTaskInput) -> Result<Task, OsError> {
    store.create_task(input, TaskId::new(), Timestamp::now())
}

#[allow(dead_code)]
fn delete_task(store: &mut Store, id: &TaskId) -> Result<(), OsError> {
    store.delete_task(id);
    Ok(())
}

#[allow(dead_code)]
fn add_learning(
    store: &mut Store,
    task_id: &TaskId,
    content: &str,
    source_task_id: Option<&TaskId>,
) -> Result<Learning, OsError> {
    store.add_learning(task_id, content, source_task_id, LearningId::new(), Timestamp::now())
}

#[allow(dead_code)]
fn get_learning(store: &Store, id: &LearningId) -> Result<Option<Learning>, OsError> {
    Ok(store.get_learning(id))
}

#[allow(dead_code)]
fn list_learnings(store: &Store, task_id: &TaskId) -> Result<Vec<Learning>, OsError> {
    Ok(store.list_learnings(task_id))
}

#[allow(dead_code)]
fn delete_learning(store: &mut Store, id: &LearningId) -> Result<(), OsError> {
    store.delete_learning(id);
    Ok(())
}

// ==================== Basic Operations ====================

#[test]
fn learning_service_test_test_add_learning() {
    let mut service = TaskService::new(Store::new());

    let task = service
        .create(&CreateTaskInput {
            description: "Task".to_string(),
            context: None,
            parent_id: None,
            priority: None,
            blocked_by: vec![],
        })
        .unwrap();

    let learning =
        add_learning(&mut service.store, &task.id, "Always validate input", None).unwrap();

    assert_eq!(learning.task_id, task.id);
    assert_eq!(learning.content, "Always validate input");
    assert_eq!(learning.source_task_id, None);
}

#[test]
fn test_add_learning_with_source() {
    let mut service = TaskService::new(Store::new());

    let source_task = service
        .create(&CreateTaskInput {
            description: "Source Task".to_string(),
            context: None,
            parent_id: None,
            priority: None,
            blocked_by: vec![],
        })
        .unwrap();

    let task = service
        .create(&CreateTaskInput {
            description: "Task".to_string(),
            context: None,
            parent_id: None,
            priority: None,
            blocked_by: vec![],
        })
        .unwrap();

    let learning = add_learning(&mut service.store,
        &task.id,
        "Learned from source task",
        Some(&source_task.id),
    )
    .unwrap();

    assert_eq!(learning.source_task_id, Some(source_task.id));
}

#[test]
fn learning_service_test_test_list_learnings() {
    let mut service = TaskService::new(Store::new());

    let task = service
        .create(&CreateTaskInput {
            description: "Task".to_string(),
            context: None,
            parent_id: None,
            priority: None,
            blocked_by: vec![],
        })
        .unwrap();

    add_learning(&mut service.store, &task.id, "Learning 1", None).unwrap();
    add_learning(&mut service.store, &task.id, "Learning 2", None).unwrap();
    add_learning(&mut service.store, &task.id, "Learning 3", None).unwrap();

    let learnings = list_learnings(&service.store, &task.id).unwrap();
    assert_eq!(learnings.len(), 3);
    assert_eq!(learnings[0].content, "Learning 1");
    assert_eq!(learnings[1].content, "Learning 2");
    assert_eq!(learnings[2].content, "Learning 3");
}

#[test]
fn learning_service_test_test_list_learnings_empty() {
    let mut service = TaskService::new(Store::new());

    let task = service
        .create(&CreateTaskInput {
            description: "Task".to_string(),
            context: None,
            parent_id: None,
            priority: None,
            blocked_by: vec![],
        })
        .unwrap();

    let learnings = list_learnings(&service.store, &task.id).unwrap();
    assert_eq!(learnings.len(), 0);
}

#[test]
fn learning_service_test_test_delete_learning() {
    let mut service = TaskService::new(Store::new());

    let task = service
        .create(&CreateTaskInput {
            description: "Task".to_string(),
            context: None,
            parent_id: None,
            priority: None,
            blocked_by: vec![],
        })
        .unwrap();

    let learning = add_learning(&mut service.store, &task.id, "Learning", None).unwrap();

    delete_learning(&mut service.store, &learning.id).unwrap();

    let result = get_learning(&service.store, &learning.id).unwrap();
    assert!(result.is_none());
}

// ==================== CASCADE Delete ====================

#[test]
fn test_cascade_delete_learnings_with_task() {
    let mut service = TaskService::new(Store::new());

    let task = service
        .create(&CreateTaskInput {
            description: "Task".to_string(),
            context: None,
            parent_id: None,
            priority: None,
            blocked_by: vec![],
        })
        .unwrap();

    let learning1 = add_learning(&mut service.store, &task.id, "Learning 1", None).unwrap();
    let learning2 = add_learning(&mut service.store, &task.id, "Learning 2", None).unwrap();

    // Delete task - learnings should be CASCADE deleted
    service.delete(&task.id).unwrap();

    let result1 = get_learning(&service.store, &learning1.id).unwrap();
    let result2 = get_learning(&service.store, &learning2.id).unwrap();

    assert!(result1.is_none());
    assert!(result2.is_none());
}

#[test]
fn test_cascade_delete_learnings_with_parent_task() {
    let mut service = TaskService::new(Store::new());

    // Create parent → child
    let parent = service
        .create(&CreateTaskInput {
            description: "Parent".to_string(),
            context: None,
            parent_id: None,
            priority: None,
            blocked_by: vec![],
        })
        .unwrap();

    let child = service
        .create(&CreateTaskInput {
            description: "Child".to_string(),
            context: None,
            parent_id: Some(parent.id.clone()),
            priority: None,
            blocked_by: vec![],
        })
        .unwrap();

    let parent_learning =
        add_learning(&mut service.store, &parent.id, "Parent learning", None).unwrap();
    let child_learning =
        add_learning(&mut service.store, &child.id, "Child learning", None).unwrap();

    // Delete parent - child and both learnings should be CASCADE deleted
    service.delete(&parent.id).unwrap();

    assert!(matches!(
        service.get(&child.id),
        Err(OsError::TaskNotFound(_))
    ));
    assert!(get_learning(&service.store, &parent_learning.id)
        .unwrap()
        .is_none());
    assert!(get_learning(&service.store, &child_learning.id)
        .unwrap()
        .is_none());
}

// ==================== Task Association ====================

#[test]
fn test_learnings_isolated_by_task() {
    let mut service = TaskService::new(Store::new());

    let task1 = service
        .create(&CreateTaskInput {
            description: "Task 1".to_string(),
            context: None,
            parent_id: None,
            priority: None,
            blocked_by: vec![],
        })
        .unwrap();

    let task2 = service
        .create(&CreateTaskInput {
            description: "Task 2".to_string(),
            context: None,
            parent_id: None,
            priority: None,
            blocked_by: vec![],
        })
        .unwrap();

    add_learning(&mut service.store, &task1.id, "Task 1 learning", None).unwrap();
    add_learning(&mut service.store, &task2.id, "Task 2 learning", None).unwrap();

    let learnings1 = list_learnings(&service.store, &task1.id).unwrap();
    let learnings2 = list_learnings(&service.store, &task2.id).unwrap();

    assert_eq!(learnings1.len(), 1);
    assert_eq!(learnings1[0].content, "Task 1 learning");
    assert_eq!(learnings2.len(), 1);
    assert_eq!(learnings2[0].content, "Task 2 learning");
}
