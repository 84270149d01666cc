use ttd::commands::{
    check_remove_session, current_session_name, handle_add, handle_done, handle_remove,
    is_affirmative, remove_session, resolve_in_current, resort_all, set_task_time, switch_session,
    time_state, AddOutcome, DoneOutcome, LookupFailure, RemoveOutcome, RemoveSessionCheck,
    RemoveSessionOutcome, ResolveOutcome, TimeState,
};
use ttd::store::{Store, Task};

const THRESHOLD: u64 = 850000;

fn store_with_tasks(descs: &[(&str, Option<i64>)]) -> Store {
    let mut store = Store::new();
    for (d, t) in descs {
        let r = handle_add(&mut store, String::from(*d), *t, false, THRESHOLD);
        assert!(matches!(r, AddOutcome::Added));
    }
    store
}

#[test]
fn add_creates_the_default_session_on_demand() {
    let mut store = Store::new();
    assert_eq!(current_session_name(&store), "default");
    let r = handle_add(&mut store, String::from("wash car"), None, false, THRESHOLD);
    assert!(matches!(r, AddOutcome::Added));
    assert_eq!(store.sessions.len(), 1);
    assert_eq!(store.sessions[0].name, "default");
    assert_eq!(store.sessions[0].tasks.len(), 1);
    assert_eq!(store.sessions[0].tasks[0].description, "wash car");
    assert!(!store.sessions[0].tasks[0].done);
}

#[test]
fn add_twice_without_override_reports_already_exists() {
    let mut store = store_with_tasks(&[("wash car", Some(100))]);
    let r = handle_add(&mut store, String::from("wash car"), Some(200), false, THRESHOLD);
    assert!(matches!(r, AddOutcome::AlreadyExists { .. }));
    assert_eq!(store.sessions[0].tasks.len(), 1);
    assert_eq!(store.sessions[0].tasks[0].time, Some(100));
}

#[test]
fn add_twice_with_override_replaces_time_and_flag() {
    let mut store = store_with_tasks(&[("wash car", Some(100))]);
    let done = handle_done(&mut store, &String::from("0"), THRESHOLD, false, true);
    assert!(matches!(done, DoneOutcome::Marked { .. }));
    let r = handle_add(&mut store, String::from("wash car"), Some(200), true, THRESHOLD);
    assert!(matches!(r, AddOutcome::Overrode { .. }));
    assert_eq!(store.sessions[0].tasks.len(), 1);
    assert_eq!(store.sessions[0].tasks[0].time, Some(200));
    assert!(!store.sessions[0].tasks[0].done);
}

#[test]
fn add_refuses_numeric_descriptions() {
    let mut store = Store::new();
    let r = handle_add(&mut store, String::from("12345"), None, true, THRESHOLD);
    assert!(matches!(r, AddOutcome::LooksLikeIndex));
    assert_eq!(store.sessions.len(), 0);
}

#[test]
fn add_fuzzy_collision_respects_override_policy() {
    let mut store = store_with_tasks(&[("buy milk", Some(100))]);
    let refused = handle_add(&mut store, String::from("buy milc"), Some(200), false, THRESHOLD);
    assert!(matches!(refused, AddOutcome::FuzzyExists { score: 875000, .. }));
    assert_eq!(store.sessions[0].tasks[0].time, Some(100));
    let taken = handle_add(&mut store, String::from("buy milc"), Some(200), true, THRESHOLD);
    assert!(matches!(taken, AddOutcome::FuzzyOverrode { score: 875000, .. }));
    assert_eq!(store.sessions[0].tasks.len(), 1);
    assert_eq!(store.sessions[0].tasks[0].description, "buy milk");
    assert_eq!(store.sessions[0].tasks[0].time, Some(200));
}

#[test]
fn add_keeps_the_session_sorted() {
    let mut store = store_with_tasks(&[("late", Some(300)), ("none", None), ("early", Some(10))]);
    let order: Vec<&str> = store.sessions[0].tasks.iter().map(|t| t.description.as_str()).collect();
    assert_eq!(order, ["early", "late", "none"]);
}

#[test]
fn remove_by_index_twice_walks_the_list() {
    let mut store = store_with_tasks(&[("a", Some(1)), ("b", Some(2)), ("c", Some(3))]);
    let r1 = handle_remove(&mut store, &String::from("0"), THRESHOLD, false);
    match r1 {
        RemoveOutcome::Removed { index, description } => {
            assert_eq!(index, 0);
            assert_eq!(description, "a");
        }
        other => panic!("expected a removal, got {:?}", other),
    }
    let r2 = handle_remove(&mut store, &String::from("0"), THRESHOLD, false);
    match r2 {
        RemoveOutcome::Removed { index, description } => {
            assert_eq!(index, 0);
            assert_eq!(description, "b");
        }
        other => panic!("expected a removal, got {:?}", other),
    }
    assert_eq!(store.sessions[0].tasks.len(), 1);
}

#[test]
fn remove_reports_index_not_found() {
    let mut store = store_with_tasks(&[("a", None)]);
    let r = handle_remove(&mut store, &String::from("7"), THRESHOLD, false);
    assert!(matches!(r, RemoveOutcome::Failed(LookupFailure::IndexNotFound)));
    assert_eq!(store.sessions[0].tasks.len(), 1);
}

#[test]
fn strict_mode_suggestion_does_not_mutate() {
    let mut store = store_with_tasks(&[("buy milk", None)]);
    let r = handle_done(&mut store, &String::from("buy milc"), THRESHOLD, true, true);
    match r {
        DoneOutcome::Failed(LookupFailure::Suggestion { description, score }) => {
            assert_eq!(description, "buy milk");
            assert_eq!(score, 875000);
        }
        other => panic!("expected a suggestion, got {:?}", other),
    }
    assert!(!store.sessions[0].tasks[0].done);
}

#[test]
fn non_strict_mode_resolves_and_mutates() {
    let mut store = store_with_tasks(&[("buy milk", None)]);
    let r = handle_done(&mut store, &String::from("buy milc"), THRESHOLD, false, true);
    assert!(matches!(r, DoneOutcome::Marked { index: 0, .. }));
    assert!(store.sessions[0].tasks[0].done);
}

#[test]
fn done_twice_reports_already() {
    let mut store = store_with_tasks(&[("a", None)]);
    let r1 = handle_done(&mut store, &String::from("0"), THRESHOLD, false, true);
    assert!(matches!(r1, DoneOutcome::Marked { .. }));
    let r2 = handle_done(&mut store, &String::from("0"), THRESHOLD, false, true);
    assert!(matches!(r2, DoneOutcome::Already { .. }));
    assert!(store.sessions[0].tasks[0].done);
    let r3 = handle_done(&mut store, &String::from("0"), THRESHOLD, false, false);
    assert!(matches!(r3, DoneOutcome::Marked { .. }));
    assert!(!store.sessions[0].tasks[0].done);
}

#[test]
fn missing_session_reads_as_empty() {
    // an absent current session is no hard failure: it resolves like an
    // empty task list, so indices miss and names find nothing
    let mut store = Store::new();
    assert!(matches!(
        handle_remove(&mut store, &String::from("0"), THRESHOLD, false),
        RemoveOutcome::Failed(LookupFailure::IndexNotFound)
    ));
    assert!(matches!(
        handle_done(&mut store, &String::from("chores"), THRESHOLD, false, true),
        DoneOutcome::Failed(LookupFailure::NotFound)
    ));
    assert!(matches!(
        resolve_in_current(&store, &String::from("0"), THRESHOLD, false),
        ResolveOutcome::Failed(LookupFailure::IndexNotFound)
    ));
    assert_eq!(store.sessions.len(), 0);
}

#[test]
fn reschedule_resolves_then_sets_the_time() {
    let mut store = store_with_tasks(&[("a", Some(50)), ("b", Some(60))]);
    let r = resolve_in_current(&store, &String::from("b"), THRESHOLD, false);
    let idx = match r {
        ResolveOutcome::Resolved { index } => index,
        other => panic!("expected a resolution, got {:?}", other),
    };
    let (desc, old_time) = set_task_time(&mut store, idx, Some(10));
    assert_eq!(desc, "b");
    assert_eq!(old_time, Some(60));
    // the session was re-sorted: "b" moved to the front
    assert_eq!(store.sessions[0].tasks[0].description, "b");
    assert_eq!(store.sessions[0].tasks[0].time, Some(10));
}

#[test]
fn reschedule_can_clear_the_time() {
    let mut store = store_with_tasks(&[("a", Some(50)), ("b", Some(60))]);
    let (_, old_time) = set_task_time(&mut store, 0, None);
    assert_eq!(old_time, Some(50));
    // a task without a time sorts after all timed tasks
    assert_eq!(store.sessions[0].tasks[1].description, "a");
    assert_eq!(store.sessions[0].tasks[1].time, None);
}

#[test]
fn switch_session_creates_and_selects() {
    let mut store = Store::new();
    switch_session(&mut store, String::from("work"));
    assert_eq!(store.current, Some(String::from("work")));
    assert_eq!(store.sessions.len(), 1);
    assert_eq!(store.sessions[0].name, "work");
    // switching again does not duplicate it
    switch_session(&mut store, String::from("work"));
    assert_eq!(store.sessions.len(), 1);
}

#[test]
fn remove_session_default_always_refused() {
    let mut store = Store::new();
    switch_session(&mut store, String::from("default"));
    let _ = handle_add(&mut store, String::from("a task"), None, false, THRESHOLD);
    let check = check_remove_session(&store, &String::from("default"));
    assert_eq!(check, RemoveSessionCheck::Protected);
    let r = remove_session(&mut store, &String::from("default"));
    assert_eq!(r, RemoveSessionOutcome::Protected);
    assert_eq!(store.sessions.len(), 1);
}

#[test]
fn remove_session_not_found() {
    let mut store = Store::new();
    assert_eq!(
        remove_session(&mut store, &String::from("nope")),
        RemoveSessionOutcome::NotFound
    );
}

#[test]
fn remove_current_session_falls_back_to_default() {
    let mut store = Store::new();
    switch_session(&mut store, String::from("work"));
    let r = remove_session(&mut store, &String::from("work"));
    assert_eq!(r, RemoveSessionOutcome::Removed { was_current: true });
    assert_eq!(store.current, Some(String::from("default")));
    assert_eq!(store.sessions.len(), 0);
}

#[test]
fn remove_session_checks_describe_confirmation() {
    let mut store = Store::new();
    switch_session(&mut store, String::from("work"));
    assert_eq!(
        check_remove_session(&store, &String::from("work")),
        RemoveSessionCheck::NoConfirmNeeded
    );
    let _ = handle_add(&mut store, String::from("open"), None, false, THRESHOLD);
    assert_eq!(
        check_remove_session(&store, &String::from("work")),
        RemoveSessionCheck::ConfirmUncompleted { total: 1, uncompleted: 1 }
    );
    let _ = handle_done(&mut store, &String::from("0"), THRESHOLD, false, true);
    assert_eq!(
        check_remove_session(&store, &String::from("work")),
        RemoveSessionCheck::ConfirmCompleted { total: 1 }
    );
    assert_eq!(
        check_remove_session(&store, &String::from("")),
        RemoveSessionCheck::EmptyName
    );
}

#[test]
fn affirmative_answers() {
    assert!(is_affirmative(&String::from("y")));
    assert!(is_affirmative(&String::from("YES")));
    assert!(is_affirmative(&String::from("Yes")));
    assert!(!is_affirmative(&String::from("n")));
    assert!(!is_affirmative(&String::from("")));
}

#[test]
fn time_states_for_rendering() {
    assert_eq!(time_state(&Some(5), 10), TimeState::Overdue);
    assert_eq!(time_state(&Some(15), 10), TimeState::Upcoming);
    assert_eq!(time_state(&None, 10), TimeState::Unscheduled);
}

#[test]
fn resort_all_sorts_every_session() {
    let mut store = Store::new();
    store.sessions.push(ttd::store::Session {
        name: String::from("default"),
        tasks: vec![
            Task { description: String::from("none"), time: None, done: false },
            Task { description: String::from("early"), time: Some(1), done: false },
        ],
    });
    resort_all(&mut store);
    assert_eq!(store.sessions[0].tasks[0].description, "early");
    assert_eq!(store.sessions[0].tasks[1].description, "none");
}

#[test]
fn format_time_displays_local_minutes() {
    assert_eq!(ttd::commands::format_time(&None, 3).unwrap(), "end of times");
    // 2026-10-09 11:30 UTC at offset +3 displays as 14:30 local
    let utc = ttd::date::day_number_of_date(2026, 10, 9) as i64 * 86400 + 11 * 3600 + 30 * 60;
    assert_eq!(ttd::commands::format_time(&Some(utc), 3).unwrap(), "2026-10-09 14:30");
    // far outside the calendar nothing can be displayed
    assert_eq!(ttd::commands::format_time(&Some(i64::MAX), 0), None);
}

#[test]
fn remove_reports_plain_not_found() {
    let mut store = store_with_tasks(&[("buy milk", None)]);
    let r = handle_remove(&mut store, &String::from("zzzzz"), THRESHOLD, false);
    assert!(matches!(r, RemoveOutcome::Failed(LookupFailure::NotFound)));
    assert_eq!(store.sessions[0].tasks.len(), 1);
}

#[test]
fn resolve_reports_failures_without_touching_the_store() {
    let store = store_with_tasks(&[("buy milk", None)]);
    let r = resolve_in_current(&store, &String::from("9"), THRESHOLD, false);
    assert!(matches!(r, ResolveOutcome::Failed(LookupFailure::IndexNotFound)));
}
