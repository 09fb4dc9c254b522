use pls::repo::{
    add_task, clean_tasks, completed_count, get_tasks, pending_count, remove_all_tasks,
    remove_task, set_completed, set_completed_all,
};
use pls::store::{Store, Value};
use pls::tasks::{make_complete, Task};

#[test]
fn test_tasks() {
    let mut db = Store::new();
    assert!(get_tasks(&db).is_empty());
    let tasks = vec![Task::new(&"task".into())];

    db.set("tasks", Value::Tasks(tasks.clone()));
    match db.get("tasks") {
        Some(Value::Tasks(ts)) => assert_eq!(*ts, tasks),
        _ => panic!("tasks key must hold the task list"),
    }
    assert_eq!(get_tasks(&db), tasks);
    assert!(!get_tasks(&db).is_empty())
}

#[test]
fn task_constructors() {
    let title = String::from("water plants");
    let t = Task::new(&title);
    assert_eq!(t.title, "water plants");
    assert!(!t.completed);
    let c = Task::new_completed(&title);
    assert!(c.completed);
    assert_eq!(c.title, "water plants");
    let d = t.make_complete();
    assert!(d.completed);
    assert_eq!(d.title, "water plants");
    let e = make_complete(&t);
    assert!(e.completed);
    assert_eq!(e.title, t.title);
}

#[test]
fn add_then_complete_then_clean() {
    let mut db = Store::new();
    add_task(&mut db, &"buy milk".into());
    let listed = get_tasks(&db);
    assert_eq!(listed.len(), 1);
    assert_eq!(listed[0].title, "buy milk");
    assert!(!listed[0].completed);

    assert!(set_completed(&mut db, 1, true));
    let listed = get_tasks(&db);
    assert_eq!(listed.len(), 1);
    assert_eq!(listed[0].title, "buy milk");
    assert!(listed[0].completed);

    let removed = clean_tasks(&mut db);
    assert_eq!(removed, 1);
    assert!(get_tasks(&db).is_empty());
}

#[test]
fn remove_out_of_bounds_reports_not_found() {
    let mut db = Store::new();
    add_task(&mut db, &"one".into());
    add_task(&mut db, &"two".into());
    let before = get_tasks(&db);
    assert!(!remove_task(&mut db, 5));
    assert_eq!(get_tasks(&db), before);
}

#[test]
fn list_reflects_each_operation_in_order() {
    let mut db = Store::new();
    add_task(&mut db, &"a".into());
    add_task(&mut db, &"b".into());
    add_task(&mut db, &"c".into());
    let titles: Vec<String> = get_tasks(&db).into_iter().map(|t| t.title).collect();
    assert_eq!(titles, vec!["a", "b", "c"]);

    assert!(set_completed(&mut db, 2, true));
    let ts = get_tasks(&db);
    assert!(!ts[0].completed && ts[1].completed && !ts[2].completed);

    assert!(remove_task(&mut db, 1));
    let ts = get_tasks(&db);
    assert_eq!(ts.len(), 2);
    assert_eq!(ts[0].title, "b");
    assert!(ts[0].completed);
    assert_eq!(ts[1].title, "c");
    assert!(!ts[1].completed);

    let removed = clean_tasks(&mut db);
    assert_eq!(removed, 1);
    let ts = get_tasks(&db);
    assert_eq!(ts.len(), 1);
    assert_eq!(ts[0].title, "c");
}

#[test]
fn set_completed_twice_equals_once() {
    let mut once = Store::new();
    add_task(&mut once, &"x".into());
    add_task(&mut once, &"y".into());
    let mut twice = Store::new();
    add_task(&mut twice, &"x".into());
    add_task(&mut twice, &"y".into());

    assert!(set_completed(&mut once, 2, true));
    assert!(set_completed(&mut twice, 2, true));
    assert!(set_completed(&mut twice, 2, true));
    assert_eq!(get_tasks(&once), get_tasks(&twice));
    assert_eq!(pls::codec::encode_store(&once), pls::codec::encode_store(&twice));
}

#[test]
fn clean_keeps_incomplete_in_order_and_counts() {
    let mut db = Store::new();
    add_task(&mut db, &"keep1".into());
    add_task(&mut db, &"drop1".into());
    add_task(&mut db, &"keep2".into());
    add_task(&mut db, &"drop2".into());
    assert!(set_completed(&mut db, 2, true));
    assert!(set_completed(&mut db, 4, true));

    let before = get_tasks(&db).len();
    let removed = clean_tasks(&mut db);
    let after = get_tasks(&db);
    assert_eq!(removed, before - after.len());
    assert_eq!(removed, 2);
    let titles: Vec<String> = after.into_iter().map(|t| t.title).collect();
    assert_eq!(titles, vec!["keep1", "keep2"]);
}

#[test]
fn mark_all_and_unmark_all() {
    let mut db = Store::new();
    add_task(&mut db, &"a".into());
    add_task(&mut db, &"b".into());
    set_completed_all(&mut db, true);
    assert!(get_tasks(&db).iter().all(|t| t.completed));
    set_completed_all(&mut db, false);
    assert!(get_tasks(&db).iter().all(|t| !t.completed));
    let titles: Vec<String> = get_tasks(&db).into_iter().map(|t| t.title).collect();
    assert_eq!(titles, vec!["a", "b"]);
}

#[test]
fn remove_all_deletes_the_key() {
    let mut db = Store::new();
    add_task(&mut db, &"a".into());
    assert!(remove_all_tasks(&mut db));
    assert!(!db.has_key("tasks"));
    assert!(get_tasks(&db).is_empty());
    assert!(!remove_all_tasks(&mut db));
}

#[test]
fn index_zero_names_the_first_task() {
    let mut with_zero = Store::new();
    add_task(&mut with_zero, &"first".into());
    add_task(&mut with_zero, &"second".into());
    let mut with_one = Store::new();
    add_task(&mut with_one, &"first".into());
    add_task(&mut with_one, &"second".into());

    assert!(set_completed(&mut with_zero, 0, true));
    assert!(set_completed(&mut with_one, 1, true));
    assert_eq!(get_tasks(&with_zero), get_tasks(&with_one));
    assert!(get_tasks(&with_zero)[0].completed);
    assert!(!get_tasks(&with_zero)[1].completed);
}

#[test]
fn counts_partition_the_list() {
    let mut db = Store::new();
    add_task(&mut db, &"a".into());
    add_task(&mut db, &"b".into());
    add_task(&mut db, &"c".into());
    assert!(set_completed(&mut db, 3, true));
    let ts = get_tasks(&db);
    assert_eq!(pending_count(&ts), 2);
    assert_eq!(completed_count(&ts), 1);
    assert_eq!(pending_count(&ts) + completed_count(&ts), ts.len());
}
