use ttd::store::{completed_count, get_max_description_length, sort_tasks, Store, Task};

fn task(desc: &str, time: Option<i64>, done: bool) -> Task {
    Task { description: String::from(desc), time, done }
}

#[test]
fn sort_puts_timed_tasks_first_in_order() {
    let mut tasks = vec![
        task("d", None, false),
        task("b", Some(20), false),
        task("a", Some(10), true),
        task("e", None, true),
        task("c", Some(30), false),
    ];
    sort_tasks(&mut tasks);
    let order: Vec<&str> = tasks.iter().map(|t| t.description.as_str()).collect();
    assert_eq!(order, ["a", "b", "c", "d", "e"]);
    // all timed tasks precede all untimed ones, and times never decrease
    let split = tasks.iter().position(|t| t.time.is_none()).unwrap();
    assert!(tasks[..split].iter().all(|t| t.time.is_some()));
    assert!(tasks[split..].iter().all(|t| t.time.is_none()));
    let times: Vec<i64> = tasks[..split].iter().map(|t| t.time.unwrap()).collect();
    assert!(times.windows(2).all(|w| w[0] <= w[1]));
}

#[test]
fn sort_keeps_every_task() {
    let mut tasks = vec![task("x", Some(5), false), task("y", Some(5), true), task("z", None, false)];
    sort_tasks(&mut tasks);
    assert_eq!(tasks.len(), 3);
    let mut names: Vec<&str> = tasks.iter().map(|t| t.description.as_str()).collect();
    names.sort();
    assert_eq!(names, ["x", "y", "z"]);
}

#[test]
fn sort_is_stable_and_idempotent() {
    // tying times keep their relative order, and a second sort is a no-op
    let mut tasks = vec![
        task("first five", Some(5), false),
        task("second five", Some(5), true),
        task("first none", None, false),
        task("three", Some(3), false),
        task("second none", None, true),
        task("third five", Some(5), false),
    ];
    sort_tasks(&mut tasks);
    let order: Vec<String> = tasks.iter().map(|t| t.description.clone()).collect();
    assert_eq!(
        order,
        ["three", "first five", "second five", "third five", "first none", "second none"]
    );
    sort_tasks(&mut tasks);
    let again: Vec<String> = tasks.iter().map(|t| t.description.clone()).collect();
    assert_eq!(order, again);
}

#[test]
fn completed_counter() {
    let tasks = vec![task("a", None, true), task("b", None, false), task("c", None, true)];
    assert_eq!(completed_count(&tasks), 2);
    assert_eq!(completed_count(&Vec::new()), 0);
}

#[test]
fn description_column_width_has_a_floor() {
    let short = vec![task("abc", None, false)];
    assert_eq!(get_max_description_length(&short, 12), 12);
    let long = vec![task("a rather long description", None, false)];
    assert_eq!(get_max_description_length(&long, 12), 25);
    assert_eq!(get_max_description_length(&Vec::new(), 5), 5);
}

#[test]
fn find_session_by_name() {
    let mut store = Store::new();
    store.sessions.push(ttd::store::Session { name: String::from("work"), tasks: Vec::new() });
    store.sessions.push(ttd::store::Session { name: String::from("home"), tasks: Vec::new() });
    assert_eq!(store.find_session(&String::from("home")), Some(1));
    assert_eq!(store.find_session(&String::from("gone")), None);
}

#[test]
fn names_unique_checks_the_invariant() {
    let mut store = Store::new();
    store.sessions.push(ttd::store::Session { name: String::from("work"), tasks: Vec::new() });
    store.sessions.push(ttd::store::Session { name: String::from("home"), tasks: Vec::new() });
    assert!(store.names_unique());
    store.sessions.push(ttd::store::Session { name: String::from("work"), tasks: Vec::new() });
    assert!(!store.names_unique());
}
