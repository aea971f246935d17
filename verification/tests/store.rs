use task_store::store::{add_task, delete_task, list, mark_done};
use task_store::task::Task;

fn added(descriptions: &[&str]) -> Vec<Task> {
    let mut tasks: Vec<Task> = Vec::new();
    for d in descriptions {
        add_task(&mut tasks, d.to_string());
    }
    tasks
}

#[test]
fn add_assigns_sequential_ids() {
    let tasks = added(&["a", "b", "c", "d"]);
    assert_eq!(tasks.len(), 4);
    for (k, t) in tasks.iter().enumerate() {
        assert_eq!(t.id, k + 1);
        assert!(!t.done);
    }
    assert_eq!(tasks[0].description, "a");
    assert_eq!(tasks[3].description, "d");
}

#[test]
fn add_empty_description() {
    let tasks = added(&[""]);
    assert_eq!(tasks.len(), 1);
    assert_eq!(tasks[0].id, 1);
    assert_eq!(tasks[0].description, "");
    assert!(!tasks[0].done);
}

#[test]
fn complete_marks_only_the_named_task() {
    let mut tasks = added(&["a", "b", "c"]);
    mark_done(&mut tasks, 2);
    assert!(!tasks[0].done);
    assert!(tasks[1].done);
    assert!(!tasks[2].done);
    assert_eq!(tasks[1].description, "b");
    assert_eq!(tasks.len(), 3);
}

#[test]
fn complete_absent_id_changes_nothing() {
    let mut tasks = added(&["a", "b"]);
    mark_done(&mut tasks, 99);
    assert_eq!(tasks.len(), 2);
    assert!(!tasks[0].done);
    assert!(!tasks[1].done);
    assert_eq!(tasks[0].description, "a");
    assert_eq!(tasks[1].description, "b");
    assert_eq!(tasks[0].id, 1);
    assert_eq!(tasks[1].id, 2);
}

#[test]
fn delete_removes_the_task_and_keeps_order() {
    let mut tasks = added(&["a", "b", "c"]);
    delete_task(&mut tasks, 2);
    assert_eq!(tasks.len(), 2);
    assert_eq!(tasks[0].id, 1);
    assert_eq!(tasks[0].description, "a");
    assert_eq!(tasks[1].id, 3);
    assert_eq!(tasks[1].description, "c");
}

#[test]
fn delete_absent_id_changes_nothing() {
    let mut tasks = added(&["a", "b"]);
    delete_task(&mut tasks, 7);
    assert_eq!(tasks.len(), 2);
    assert_eq!(tasks[0].description, "a");
    assert_eq!(tasks[1].description, "b");
}

#[test]
fn delete_removes_every_task_with_a_reused_id() {
    // Ids are assigned as length + 1, so a deletion lets an id repeat.
    let mut tasks = added(&["a", "b"]);
    delete_task(&mut tasks, 1);
    add_task(&mut tasks, "c".to_string());
    assert_eq!(tasks.len(), 2);
    assert_eq!(tasks[0].id, 2);
    assert_eq!(tasks[1].id, 2);
    delete_task(&mut tasks, 2);
    assert_eq!(tasks.len(), 0);
}

#[test]
fn list_returns_the_collection_in_order() {
    let tasks = added(&["x", "y"]);
    let seen = list(&tasks);
    assert_eq!(seen.len(), 2);
    assert_eq!(seen[0].description, "x");
    assert_eq!(seen[1].description, "y");
}

#[test]
fn scenario_add_complete_delete() {
    let mut tasks: Vec<Task> = Vec::new();
    add_task(&mut tasks, "buy milk".to_string());
    assert_eq!(tasks.len(), 1);
    assert_eq!(tasks[0].id, 1);
    assert_eq!(tasks[0].description, "buy milk");
    assert!(!tasks[0].done);
    add_task(&mut tasks, "walk dog".to_string());
    assert_eq!(tasks.len(), 2);
    assert_eq!(tasks[1].id, 2);
    assert_eq!(tasks[1].description, "walk dog");
    assert!(!tasks[1].done);
    mark_done(&mut tasks, 1);
    assert!(tasks[0].done);
    assert!(!tasks[1].done);
    delete_task(&mut tasks, 2);
    assert_eq!(tasks.len(), 1);
    assert_eq!(tasks[0].id, 1);
    assert_eq!(tasks[0].description, "buy milk");
    assert!(tasks[0].done);
}
