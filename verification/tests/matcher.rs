use ttd::matcher::{find_by_index, find_by_name, find_task};
use ttd::store::Task;
use ttd::text::similarity_millionths;

fn task(desc: &str) -> Task {
    Task { description: String::from(desc), time: None, done: false }
}

fn sample() -> Vec<Task> {
    vec![task("buy milk"), task("walk dog"), task("write report")]
}

const THRESHOLD: u64 = 850000;

#[test]
fn similarity_is_exact_on_equal_strings() {
    assert_eq!(similarity_millionths("buy milk", "buy milk"), 1000000);
}

#[test]
fn similarity_counts_edits() {
    // one substitution out of eight characters
    assert_eq!(similarity_millionths("buy milk", "buy milc"), 875000);
    assert_eq!(similarity_millionths("", ""), 1000000);
    assert_eq!(similarity_millionths("abc", "xyz"), 0);
}

#[test]
fn index_lookup_resolves_positions() {
    let tasks = sample();
    for k in 0..3usize {
        let r = find_task(&tasks, &k.to_string(), THRESHOLD, false);
        assert!(r.by_index);
        assert_eq!(r.index, Some(k));
        assert!(r.candidate.is_none());
    }
    assert_eq!(find_by_index(&tasks, 2), Some(2));
    assert_eq!(find_by_index(&tasks, 3), None);
}

#[test]
fn index_lookup_out_of_range() {
    let tasks = sample();
    let r = find_task(&tasks, &String::from("3"), THRESHOLD, false);
    assert!(r.by_index);
    assert_eq!(r.index, None);
}

#[test]
fn negative_index_never_resolves() {
    let tasks = sample();
    let r = find_task(&tasks, &String::from("-1"), THRESHOLD, false);
    assert!(r.by_index);
    assert_eq!(r.index, None);
}

#[test]
fn empty_token_counts_as_failed_index() {
    let tasks = sample();
    let r = find_task(&tasks, &String::from(""), THRESHOLD, false);
    assert!(r.by_index);
    assert_eq!(r.index, None);
}

#[test]
fn oversized_index_never_resolves() {
    let tasks = sample();
    let r = find_task(&tasks, &String::from("99999999999999999999999"), THRESHOLD, false);
    assert!(r.by_index);
    assert_eq!(r.index, None);
}

#[test]
fn name_lookup_is_not_an_index_lookup() {
    let tasks = sample();
    let r = find_task(&tasks, &String::from("walk dog"), THRESHOLD, true);
    assert!(!r.by_index);
    assert_eq!(r.index, Some(1));
}

#[test]
fn exact_match_ignores_case() {
    let tasks = sample();
    let r = find_task(&tasks, &String::from("BUY MILK"), THRESHOLD, true);
    assert_eq!(r.index, Some(0));
    assert!(r.candidate.is_none());
}

#[test]
fn strict_mode_only_suggests() {
    let tasks = sample();
    let (idx, cand) = find_by_name(&tasks, &String::from("buy milc"), THRESHOLD, true);
    assert_eq!(idx, None);
    let c = cand.expect("a fuzzy candidate above the threshold");
    assert_eq!(c.index, 0);
    assert_eq!(c.description, "buy milk");
    assert_eq!(c.score, 875000);
}

#[test]
fn non_strict_mode_resolves_fuzzily() {
    let tasks = sample();
    let (idx, cand) = find_by_name(&tasks, &String::from("buy milc"), THRESHOLD, false);
    assert_eq!(idx, Some(0));
    let c = cand.expect("the resolved candidate is reported");
    assert_eq!(c.score, 875000);
}

#[test]
fn threshold_is_strict_in_strict_mode_only() {
    let tasks = sample();
    // the candidate scores exactly the threshold
    let (i1, c1) = find_by_name(&tasks, &String::from("buy milc"), 875000, true);
    assert_eq!((i1, c1.is_none()), (None, true));
    let (i2, _) = find_by_name(&tasks, &String::from("buy milc"), 875000, false);
    assert_eq!(i2, Some(0));
}

#[test]
fn no_match_below_threshold() {
    let tasks = sample();
    let (idx, cand) = find_by_name(&tasks, &String::from("qqqqq"), THRESHOLD, false);
    assert_eq!(idx, None);
    assert!(cand.is_none());
}

#[test]
fn exact_match_resolves_at_any_threshold() {
    // an exact (case-insensitive) match scores the full million and
    // resolves non-strictly even under the highest threshold
    let tasks = sample();
    let (idx, cand) = find_by_name(&tasks, &String::from("WALK DOG"), 1000000, false);
    assert_eq!(idx, Some(1));
    assert_eq!(cand.expect("the resolved match is reported").score, 1000000);
}
