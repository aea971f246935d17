use task_store::codec::{load_from_string, render_task, save_to_string};
use task_store::store::{add_task, mark_done};
use task_store::task::Task;

fn same_tasks(a: &Vec<Task>, b: &Vec<Task>) -> bool {
    a.len() == b.len()
        && a.iter().zip(b.iter()).all(|(x, y)| {
            x.id == y.id && x.description == y.description && x.done == y.done
        })
}

#[test]
fn saved_text_is_exact() {
    let mut tasks: Vec<Task> = Vec::new();
    add_task(&mut tasks, "buy milk".to_string());
    let text = save_to_string(&tasks);
    assert_eq!(text, "[{\"id\":1,\"description\":\"buy milk\",\"done\":false}]");
}

#[test]
fn saved_text_of_empty_collection() {
    let tasks: Vec<Task> = Vec::new();
    assert_eq!(save_to_string(&tasks), "[]");
}

#[test]
fn saved_text_with_done_flag() {
    let mut tasks: Vec<Task> = Vec::new();
    add_task(&mut tasks, "a".to_string());
    mark_done(&mut tasks, 1);
    assert_eq!(save_to_string(&tasks), "[{\"id\":1,\"description\":\"a\",\"done\":true}]");
}

#[test]
fn saved_text_escapes_quotes_and_backslashes() {
    let mut tasks: Vec<Task> = Vec::new();
    add_task(&mut tasks, "say \"hi\" \\ bye".to_string());
    let text = save_to_string(&tasks);
    assert_eq!(
        text,
        "[{\"id\":1,\"description\":\"say \\\"hi\\\" \\\\ bye\",\"done\":false}]"
    );
    let back = load_from_string(&text);
    assert_eq!(back[0].description, "say \"hi\" \\ bye");
}

#[test]
fn round_trip_reproduces_the_collection() {
    let mut tasks: Vec<Task> = Vec::new();
    add_task(&mut tasks, "buy milk".to_string());
    add_task(&mut tasks, "walk dog".to_string());
    add_task(&mut tasks, "".to_string());
    add_task(&mut tasks, "caffè ☕".to_string());
    add_task(&mut tasks, "line one\nline two\ttabbed".to_string());
    mark_done(&mut tasks, 2);
    let text = save_to_string(&tasks);
    let back = load_from_string(&text);
    assert!(same_tasks(&tasks, &back));
    // Saving again writes the identical text: save and load are idempotent
    // without an intervening mutation.
    assert_eq!(save_to_string(&back), text);
}

#[test]
fn round_trip_of_empty_collection() {
    let tasks: Vec<Task> = Vec::new();
    let back = load_from_string(&save_to_string(&tasks));
    assert_eq!(back.len(), 0);
}

#[test]
fn malformed_text_yields_empty_collection() {
    assert_eq!(load_from_string("").len(), 0);
    assert_eq!(load_from_string("not a list").len(), 0);
    assert_eq!(load_from_string("[").len(), 0);
    assert_eq!(load_from_string("[]trailing").len(), 0);
    assert_eq!(load_from_string("[{\"id\":1}]").len(), 0);
    assert_eq!(load_from_string("[{\"id\":9999999999999999999999999999,\"description\":\"a\",\"done\":false}]").len(), 0);
}

#[test]
fn absent_id_leaves_saved_text_identical() {
    let mut tasks: Vec<Task> = Vec::new();
    add_task(&mut tasks, "a".to_string());
    add_task(&mut tasks, "b".to_string());
    let before = save_to_string(&tasks);
    mark_done(&mut tasks, 99);
    let after = save_to_string(&tasks);
    assert_eq!(before, after);
}

#[test]
fn rendered_line_is_exact() {
    let mut tasks: Vec<Task> = Vec::new();
    add_task(&mut tasks, "buy milk".to_string());
    assert_eq!(render_task(&tasks[0]), "1 false - buy milk");
    mark_done(&mut tasks, 1);
    assert_eq!(render_task(&tasks[0]), "1 true - buy milk");
}
