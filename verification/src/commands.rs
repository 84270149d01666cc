//! The command handlers: each one resolves its arguments against the store
//! and applies exactly one mutation, reporting what it did as a value that
//! the caller renders.

use vstd::prelude::*;
use crate::store::{
    Task, Session, Store, sort_tasks, sorted_by_time, done_count, completed_count,
};
use crate::text::{lower_of, lowercase};
use crate::matcher::{
    find_by_name, find_task, is_index_query, index_resolution, name_resolution, first_exact_from,
    best_candidate, all_digits_from, all_digits_in, lemma_digits_value_nonneg,
};

verus! {

/// The name the store's commands act on: the current session, or "default".
pub open spec fn current_name_of(st: Store) -> Seq<char> {
    match st.current {
        Some(n) => n@,
        None => "default"@,
    }
}

pub open spec fn has_session(st: Store, name: Seq<char>) -> bool {
    exists|i: int| 0 <= i < st.sessions@.len() && st.sessions@[i].name@ == name
}

/// The index of the session with this name; meaningful when it exists and
/// names are unique.
pub open spec fn session_index(st: Store, name: Seq<char>) -> int {
    choose|i: int| 0 <= i < st.sessions@.len() && st.sessions@[i].name@ == name
}

/// The tasks of the named session; an absent session holds no tasks.
pub open spec fn session_tasks(st: Store, name: Seq<char>) -> Seq<Task> {
    if has_session(st, name) {
        st.sessions@[session_index(st, name)].tasks@
    } else {
        Seq::<Task>::empty()
    }
}

/// `b` is `a` with the tasks of session `name` replaced — the session added
/// at the end when absent — and everything else untouched.
pub open spec fn same_but_session(a: Store, b: Store, name: Seq<char>) -> bool {
    &&& b.current == a.current
    &&& if has_session(a, name) {
        &&& b.sessions@.len() == a.sessions@.len()
        &&& forall|k: int|
            0 <= k < a.sessions@.len() && k != session_index(a, name) ==> b.sessions@[k]
                == a.sessions@[k]
        &&& b.sessions@[session_index(a, name)].name@ == name
    } else {
        &&& b.sessions@.len() == a.sessions@.len() + 1
        &&& forall|k: int| 0 <= k < a.sessions@.len() ==> b.sessions@[k] == a.sessions@[k]
        &&& b.sessions@.last().name@ == name
    }
}

/// The current session's name, or "default" when none was chosen.
pub fn current_session_name(store: &Store) -> (r: String)
    ensures
        r@ == current_name_of(*store),
{
    match &store.current {
        Some(n) => n.clone(),
        None => String::from_str("default"),
    }
}

/// With `wf`, a found index is the session index.
proof fn lemma_session_index_agrees(st: Store, name: Seq<char>, i: int)
    requires
        st.wf(),
        0 <= i < st.sessions@.len(),
        st.sessions@[i].name@ == name,
    ensures
        has_session(st, name),
        session_index(st, name) == i,
{
    assert(has_session(st, name));
    let j = session_index(st, name);
    if i < j {
        assert(st.sessions@[i].name@ != st.sessions@[j].name@);
    }
    if j < i {
        assert(st.sessions@[j].name@ != st.sessions@[i].name@);
    }
}

/// Make this session current, creating it empty when absent.
pub fn switch_session(store: &mut Store, name: String)
    requires
        old(store).wf(),
    ensures
        final(store).wf(),
        final(store).current matches Some(c) && c@ == name@,
        has_session(*old(store), name@) ==> final(store).sessions@ == old(store).sessions@,
        !has_session(*old(store), name@) ==> {
            &&& final(store).sessions@.len() == old(store).sessions@.len() + 1
            &&& forall|k: int|
                0 <= k < old(store).sessions@.len() ==> final(store).sessions@[k] == old(
                    store,
                ).sessions@[k]
            &&& final(store).sessions@.last().name@ == name@
            &&& final(store).sessions@.last().tasks@ == Seq::<Task>::empty()
        },
{
    let found = store.find_session(&name);
    match found {
        Some(i) => {
            proof {
                lemma_session_index_agrees(*store, name@, i as int);
            }
        },
        None => {
            let tasks: Vec<Task> = Vec::new();
            store.sessions.push(Session { name: name.clone(), tasks });
            proof {
                assert forall|a: int, b: int|
                    0 <= a < b < store.sessions@.len() implies store.sessions@[a].name@
                    != store.sessions@[b].name@ by {
                    if b < store.sessions@.len() - 1 {
                        assert(old(store).sessions@[a].name@ != old(store).sessions@[b].name@);
                    } else {
                        assert(old(store).sessions@[a].name@ != name@);
                    }
                }
            }
        },
    }
    store.current = Some(name);
}

/// What removing a session would take.
#[derive(Clone, Copy, Debug, PartialEq, Eq, Structural)]
pub enum RemoveSessionCheck {
    /// The name is empty.
    EmptyName,
    /// "default" can never be removed.
    Protected,
    /// No session of that name exists.
    NotFound,
    /// The session is empty: it can go without confirmation.
    NoConfirmNeeded,
    /// The session still has uncompleted tasks: confirm first.
    ConfirmUncompleted { total: usize, uncompleted: usize },
    /// The session has tasks, all of them completed: confirm first.
    ConfirmCompleted { total: usize },
}

/// Say what removing this session would take, without touching anything.
pub fn check_remove_session(store: &Store, name: &String) -> (r: RemoveSessionCheck)
    requires
        store.wf(),
    ensures
        name@.len() == 0 ==> r == RemoveSessionCheck::EmptyName,
        name@.len() > 0 && name@ == "default"@ ==> r == RemoveSessionCheck::Protected,
        name@.len() > 0 && name@ != "default"@ && !has_session(*store, name@) ==> r
            == RemoveSessionCheck::NotFound,
        name@.len() > 0 && name@ != "default"@ && has_session(*store, name@) ==> {
            let ts = session_tasks(*store, name@);
            if ts.len() == 0 {
                r == RemoveSessionCheck::NoConfirmNeeded
            } else if done_count(ts) < ts.len() {
                r == (RemoveSessionCheck::ConfirmUncompleted {
                    total: ts.len() as usize,
                    uncompleted: (ts.len() - done_count(ts)) as usize,
                })
            } else {
                r == (RemoveSessionCheck::ConfirmCompleted { total: ts.len() as usize })
            }
        },
{
    if name.as_str().is_empty() {
        return RemoveSessionCheck::EmptyName;
    }
    if name.eq(&String::from_str("default")) {
        proof {
            reveal_strlit("default");
        }
        return RemoveSessionCheck::Protected;
    }
    proof {
        reveal_strlit("default");
    }
    match store.find_session(name) {
        None => RemoveSessionCheck::NotFound,
        Some(i) => {
            proof {
                lemma_session_index_agrees(*store, name@, i as int);
            }
            let total = store.sessions[i].tasks.len();
            if total == 0 {
                RemoveSessionCheck::NoConfirmNeeded
            } else {
                let done = completed_count(&store.sessions[i].tasks);
                if done < total {
                    RemoveSessionCheck::ConfirmUncompleted { total, uncompleted: total - done }
                } else {
                    RemoveSessionCheck::ConfirmCompleted { total }
                }
            }
        },
    }
}

/// What `remove_session` did.
#[derive(Clone, Copy, Debug, PartialEq, Eq, Structural)]
pub enum RemoveSessionOutcome {
    /// The session is gone; `was_current` says whether the current session
    /// fell back to "default".
    Removed { was_current: bool },
    /// "default" can never be removed, whatever anyone confirms.
    Protected,
    /// No session of that name exists.
    NotFound,
}

/// Remove the named session. The reserved session "default" is refused
/// unconditionally; removing the current session makes "default" current.
pub fn remove_session(store: &mut Store, name: &String) -> (r: RemoveSessionOutcome)
    requires
        old(store).wf(),
    ensures
        final(store).wf(),
        name@ == "default"@ ==> r == RemoveSessionOutcome::Protected && *final(store) == *old(
            store,
        ),
        name@ != "default"@ && !has_session(*old(store), name@) ==> r
            == RemoveSessionOutcome::NotFound && *final(store) == *old(store),
        name@ != "default"@ && has_session(*old(store), name@) ==> {
            let was = old(store).current matches Some(c) && c@ == name@;
            &&& r == (RemoveSessionOutcome::Removed { was_current: was })
            &&& final(store).sessions@ == old(store).sessions@.remove(
                session_index(*old(store), name@),
            )
            &&& if was {
                final(store).current matches Some(c) && c@ == "default"@
            } else {
                final(store).current == old(store).current
            }
        },
{
    if name.eq(&String::from_str("default")) {
        proof {
            reveal_strlit("default");
        }
        return RemoveSessionOutcome::Protected;
    }
    proof {
        reveal_strlit("default");
    }
    match store.find_session(name) {
        None => RemoveSessionOutcome::NotFound,
        Some(i) => {
            proof {
                lemma_session_index_agrees(*store, name@, i as int);
            }
            store.sessions.remove(i);
            let was_current = match &store.current {
                Some(c) => c.eq(name),
                None => false,
            };
            if was_current {
                store.current = Some(String::from_str("default"));
            }
            proof {
                assert forall|a: int, b: int|
                    0 <= a < b < store.sessions@.len() implies store.sessions@[a].name@
                    != store.sessions@[b].name@ by {
                    let s0 = old(store).sessions@;
                    let ii = i as int;
                    let a0 = if a < ii {
                        a
                    } else {
                        a + 1
                    };
                    let b0 = if b < ii {
                        b
                    } else {
                        b + 1
                    };
                    assert(s0[a0].name@ != s0[b0].name@);
                }
            }
            RemoveSessionOutcome::Removed { was_current }
        },
    }
}

/// An affirmative confirmation line: "y" or "yes", in any case.
pub fn is_affirmative(line: &String) -> (r: bool)
    ensures
        r == (lower_of(line@) == "y"@ || lower_of(line@) == "yes"@),
{
    let l = lowercase(line.as_str());
    l.eq(&String::from_str("y")) || l.eq(&String::from_str("yes"))
}

/// How a task's due time stands against "now": the renderer's three states.
#[derive(Clone, Copy, Debug, PartialEq, Eq, Structural)]
pub enum TimeState {
    /// The due time already passed.
    Overdue,
    /// The due time is still ahead.
    Upcoming,
    /// The task has no due time.
    Unscheduled,
}

/// Classify a task's due time against "now".
pub fn time_state(time: &Option<i64>, now: i64) -> (r: TimeState)
    ensures
        r == (match *time {
            Some(t) => if t < now {
                TimeState::Overdue
            } else {
                TimeState::Upcoming
            },
            None => TimeState::Unscheduled,
        }),
{
    match time {
        Some(t) => if *t < now {
            TimeState::Overdue
        } else {
            TimeState::Upcoming
        },
        None => TimeState::Unscheduled,
    }
}

/// What resolving a query against the current session can yield: the index
/// (with the named thing) or why it failed.
pub open spec fn query_resolution(s: Seq<Task>, q: Seq<char>, threshold: int, strict: bool) -> Option<
    int,
> {
    if is_index_query(q) {
        index_resolution(s.len() as int, q)
    } else {
        name_resolution(s, q, threshold, strict).0
    }
}

/// Why a query failed to resolve.
#[derive(Debug)]
pub enum LookupFailure {
    /// The token parsed as an index that is no position in the list.
    IndexNotFound,
    /// Only a fuzzy candidate: reported with its score, never applied
    /// (strict matching).
    Suggestion { description: String, score: u64 },
    /// Nothing came close.
    NotFound,
}

/// A failure value says what the resolution functions say of the query.
pub open spec fn failure_matches(
    f: LookupFailure,
    s: Seq<Task>,
    q: Seq<char>,
    threshold: int,
    strict: bool,
) -> bool {
    match f {
        LookupFailure::IndexNotFound => is_index_query(q) && index_resolution(s.len() as int, q)
            is None,
        LookupFailure::Suggestion { description: d, score: sc } => {
            &&& !is_index_query(q)
            &&& name_resolution(s, q, threshold, strict).0 is None
            &&& name_resolution(s, q, threshold, strict).1 matches Some(p) && p.1 == sc && 0 <= p.0
                < s.len() && d@ == s[p.0].description@
        },
        LookupFailure::NotFound => {
            &&& !is_index_query(q)
            &&& name_resolution(s, q, threshold, strict).0 is None
            &&& name_resolution(s, q, threshold, strict).1 is None
        },
    }
}

/// A name that no session bears holds no tasks.
proof fn lemma_absent_session_is_empty(st: Store, name: Seq<char>)
    requires
        forall|i: int| 0 <= i < st.sessions@.len() ==> st.sessions@[i].name@ != name,
    ensures
        !has_session(st, name),
        session_tasks(st, name) == Seq::<Task>::empty(),
{
    assert(!has_session(st, name)) by {
        if has_session(st, name) {
            let i = choose|i: int| 0 <= i < st.sessions@.len() && st.sessions@[i].name@ == name;
            assert(st.sessions@[i].name@ != name);
        }
    }
}

/// Resolve a query against no tasks at all: an absent current session holds
/// nothing, so an index token misses and a name finds nothing.
fn fail_on_empty(query: &String, threshold: u64, strict: bool) -> (f: LookupFailure)
    ensures
        failure_matches(f, Seq::<Task>::empty(), query@, threshold as int, strict),
{
    let q = query.as_str();
    let is_idx = all_digits_in(q, 0) || (q.unicode_len() > 0 && q.get_char(0) == '-'
        && all_digits_in(q, 1));
    if is_idx {
        proof {
            if all_digits_from(query@, 0) && query@.len() > 0 {
                lemma_digits_value_nonneg(query@);
            }
        }
        LookupFailure::IndexNotFound
    } else {
        LookupFailure::NotFound
    }
}

/// What `handle_add` did.
#[derive(Debug)]
pub enum AddOutcome {
    /// All-digit descriptions are refused: they would look like indices.
    LooksLikeIndex,
    /// A task of that description existed; its time and flag were reset.
    Overrode { description: String },
    /// A task of that description exists and overriding is off.
    AlreadyExists { description: String },
    /// A similar task was found and overwritten instead.
    FuzzyOverrode { description: String, score: u64 },
    /// A similar task exists and overriding is off: nothing changed.
    FuzzyExists { description: String, score: u64 },
    /// The task is new and was added.
    Added,
}

/// Add a task to the current session, creating the session on demand.
///
/// A description that collides — equal up to case, or similar above the
/// threshold — replaces the old task's time and completion flag when
/// overriding is allowed, and is refused when it is not. The session is
/// re-sorted after any change.
pub fn handle_add(
    store: &mut Store,
    description: String,
    time: Option<i64>,
    can_override: bool,
    threshold: u64,
) -> (r: AddOutcome)
    requires
        old(store).wf(),
    ensures
        final(store).wf(),
        final(store).current == old(store).current,
        ({
            let cur = current_name_of(*old(store));
            let s0 = session_tasks(*old(store), cur);
            let s1 = session_tasks(*final(store), cur);
            match r {
                AddOutcome::LooksLikeIndex => all_digits_from(description@, 0) && *final(store)
                    == *old(store),
                AddOutcome::AlreadyExists { description: d } => {
                    &&& !all_digits_from(description@, 0)
                    &&& !can_override
                    &&& *final(store) == *old(store)
                    &&& first_exact_from(s0, description@, 0) matches Some(i) && d@
                        == s0[i].description@
                },
                AddOutcome::Overrode { description: d } => {
                    &&& !all_digits_from(description@, 0)
                    &&& can_override
                    &&& same_but_session(*old(store), *final(store), cur)
                    &&& sorted_by_time(s1)
                    &&& first_exact_from(s0, description@, 0) matches Some(i) && d@
                        == s0[i].description@ && s1.to_multiset() == s0.update(
                        i,
                        (Task { description: s0[i].description, time: time, done: false }),
                    ).to_multiset()
                },
                AddOutcome::FuzzyExists { description: d, score: sc } => {
                    &&& !all_digits_from(description@, 0)
                    &&& !can_override
                    &&& *final(store) == *old(store)
                    &&& first_exact_from(s0, description@, 0) is None
                    &&& best_candidate(s0, description@) matches Some(p) && p.1 == sc && p.1
                        > threshold && d@ == s0[p.0].description@
                },
                AddOutcome::FuzzyOverrode { description: d, score: sc } => {
                    &&& !all_digits_from(description@, 0)
                    &&& can_override
                    &&& same_but_session(*old(store), *final(store), cur)
                    &&& sorted_by_time(s1)
                    &&& first_exact_from(s0, description@, 0) is None
                    &&& best_candidate(s0, description@) matches Some(p) && p.1 == sc && p.1
                        > threshold && d@ == s0[p.0].description@ && s1.to_multiset()
                        == s0.update(
                        p.0,
                        (Task { description: s0[p.0].description, time: time, done: false }),
                    ).to_multiset()
                },
                AddOutcome::Added => {
                    &&& !all_digits_from(description@, 0)
                    &&& first_exact_from(s0, description@, 0) is None
                    &&& (match best_candidate(s0, description@) {
                        Some(p) => p.1 <= threshold,
                        None => true,
                    })
                    &&& same_but_session(*old(store), *final(store), cur)
                    &&& sorted_by_time(s1)
                    &&& s1.to_multiset() == s0.push(
                        (Task { description: description, time: time, done: false }),
                    ).to_multiset()
                },
            }
        }),
{
    if all_digits_in(description.as_str(), 0) {
        return AddOutcome::LooksLikeIndex;
    }
    let cur_name = current_session_name(store);
    let found = store.find_session(&cur_name);
    match found {
        Some(si) => {
            proof {
                lemma_session_index_agrees(*store, cur_name@, si as int);
            }
            let ghost s0 = store.sessions@[si as int].tasks@;
            let (exact_idx, cand) = find_by_name(
                &store.sessions[si].tasks,
                &description,
                threshold,
                true,
            );
            if let Some(i) = exact_idx {
                let existing = store.sessions[si].tasks[i].description.clone();
                if can_override {
                    let ghost before = store.sessions@;
                    let mut sess = store.sessions.remove(si);
                    let mut t = sess.tasks.remove(i);
                    t.time = time;
                    t.done = false;
                    sess.tasks.insert(i, t);
                    proof {
                        assert(sess.tasks@ =~= s0.update(
                            i as int,
                            (Task { description: s0[i as int].description, time: time, done: false }),
                        ));
                    }
                    sort_tasks(&mut sess.tasks);
                    let ghost gs = sess;
                    store.sessions.insert(si, sess);
                    proof {
                        assert(store.sessions@ =~= before.update(si as int, gs));
                        lemma_wf_after_update(*old(store), *store, si as int);
                        lemma_session_index_agrees(*store, cur_name@, si as int);
                    }
                    AddOutcome::Overrode { description: existing }
                } else {
                    AddOutcome::AlreadyExists { description: existing }
                }
            } else if let Some(c) = cand {
                if can_override {
                    let ghost before = store.sessions@;
                    let ci = c.index;
                    let mut sess = store.sessions.remove(si);
                    let mut t = sess.tasks.remove(ci);
                    t.time = time;
                    t.done = false;
                    sess.tasks.insert(ci, t);
                    proof {
                        assert(sess.tasks@ =~= s0.update(
                            ci as int,
                            (Task {
                                description: s0[ci as int].description,
                                time: time,
                                done: false,
                            }),
                        ));
                    }
                    sort_tasks(&mut sess.tasks);
                    let ghost gs = sess;
                    store.sessions.insert(si, sess);
                    proof {
                        assert(store.sessions@ =~= before.update(si as int, gs));
                        lemma_wf_after_update(*old(store), *store, si as int);
                        lemma_session_index_agrees(*store, cur_name@, si as int);
                    }
                    AddOutcome::FuzzyOverrode { description: c.description, score: c.score }
                } else {
                    AddOutcome::FuzzyExists { description: c.description, score: c.score }
                }
            } else {
                let ghost before = store.sessions@;
                let mut sess = store.sessions.remove(si);
                sess.tasks.push(Task { description, time, done: false });
                sort_tasks(&mut sess.tasks);
                let ghost gs = sess;
                store.sessions.insert(si, sess);
                proof {
                    assert(store.sessions@ =~= before.update(si as int, gs));
                    lemma_wf_after_update(*old(store), *store, si as int);
                    lemma_session_index_agrees(*store, cur_name@, si as int);
                }
                AddOutcome::Added
            }
        },
        None => {
            let mut tasks: Vec<Task> = Vec::new();
            tasks.push(Task { description, time, done: false });
            store.sessions.push(Session { name: cur_name, tasks });
            proof {
                let cur = current_name_of(*old(store));
                lemma_wf_after_push(*old(store), *store);
                lemma_session_index_agrees(*store, cur, store.sessions@.len() - 1);
                assert(session_tasks(*old(store), cur) =~= Seq::<Task>::empty());
            }
            AddOutcome::Added
        },
    }
}

/// A store stays well formed when one session's contents change in place.
proof fn lemma_wf_after_update(a: Store, b: Store, i: int)
    requires
        a.wf(),
        0 <= i < a.sessions@.len(),
        b.sessions@.len() == a.sessions@.len(),
        forall|k: int| 0 <= k < a.sessions@.len() && k != i ==> b.sessions@[k] == a.sessions@[k],
        b.sessions@[i].name@ == a.sessions@[i].name@,
    ensures
        b.wf(),
{
    assert forall|x: int, y: int|
        0 <= x < y < b.sessions@.len() implies b.sessions@[x].name@ != b.sessions@[y].name@ by {
        assert(a.sessions@[x].name@ != a.sessions@[y].name@);
    }
}

/// A store stays well formed when a session with a fresh name is appended.
proof fn lemma_wf_after_push(a: Store, b: Store)
    requires
        a.wf(),
        b.sessions@.len() == a.sessions@.len() + 1,
        forall|k: int| 0 <= k < a.sessions@.len() ==> b.sessions@[k] == a.sessions@[k],
        !has_session(a, b.sessions@.last().name@),
    ensures
        b.wf(),
{
    assert forall|x: int, y: int|
        0 <= x < y < b.sessions@.len() implies b.sessions@[x].name@ != b.sessions@[y].name@ by {
        if y < b.sessions@.len() - 1 {
            assert(a.sessions@[x].name@ != a.sessions@[y].name@);
        } else {
            assert(a.sessions@[x].name@ == b.sessions@[x].name@);
        }
    }
}

/// What `handle_remove` did.
#[derive(Debug)]
pub enum RemoveOutcome {
    /// The task at this position was removed.
    Removed { index: usize, description: String },
    /// Nothing was removed.
    Failed(LookupFailure),
}

/// Remove the task the query names from the current session; a current
/// session that does not exist reads as an empty one.
pub fn handle_remove(store: &mut Store, query: &String, threshold: u64, strict: bool) -> (r:
    RemoveOutcome)
    requires
        old(store).wf(),
    ensures
        final(store).wf(),
        final(store).current == old(store).current,
        ({
            let cur = current_name_of(*old(store));
            let s0 = session_tasks(*old(store), cur);
            let s1 = session_tasks(*final(store), cur);
            match r {
                RemoveOutcome::Removed { index, description } => {
                    &&& has_session(*old(store), cur)
                    &&& query_resolution(s0, query@, threshold as int, strict) == Some(index as int)
                    &&& description@ == s0[index as int].description@
                    &&& same_but_session(*old(store), *final(store), cur)
                    &&& s1 == s0.remove(index as int)
                },
                RemoveOutcome::Failed(f) => {
                    &&& *final(store) == *old(store)
                    &&& query_resolution(s0, query@, threshold as int, strict) is None
                    &&& failure_matches(f, s0, query@, threshold as int, strict)
                },
            }
        }),
{
    let cur_name = current_session_name(store);
    let found = store.find_session(&cur_name);
    match found {
        None => {
            proof {
                lemma_absent_session_is_empty(*store, cur_name@);
            }
            RemoveOutcome::Failed(fail_on_empty(query, threshold, strict))
        },
        Some(si) => {
            proof {
                lemma_session_index_agrees(*store, cur_name@, si as int);
            }
            let fr = find_task(&store.sessions[si].tasks, query, threshold, strict);
            match fr.index {
                Some(idx) => {
                    let ghost before = store.sessions@;
                    let mut sess = store.sessions.remove(si);
                    let desc = sess.tasks[idx].description.clone();
                    sess.tasks.remove(idx);
                    let ghost gs = sess;
                    store.sessions.insert(si, sess);
                    proof {
                        assert(store.sessions@ =~= before.update(si as int, gs));
                        lemma_wf_after_update(*old(store), *store, si as int);
                        lemma_session_index_agrees(*store, cur_name@, si as int);
                    }
                    RemoveOutcome::Removed { index: idx, description: desc }
                },
                None => {
                    if fr.by_index {
                        RemoveOutcome::Failed(LookupFailure::IndexNotFound)
                    } else {
                        match fr.candidate {
                            Some(c) => RemoveOutcome::Failed(
                                LookupFailure::Suggestion {
                                    description: c.description,
                                    score: c.score,
                                },
                            ),
                            None => RemoveOutcome::Failed(LookupFailure::NotFound),
                        }
                    }
                },
            }
        },
    }
}

/// What `handle_done` did.
#[derive(Debug)]
pub enum DoneOutcome {
    /// The task's completion flag was flipped to the requested state.
    Marked { index: usize, description: String },
    /// The task already was in the requested state; nothing changed.
    Already { index: usize, description: String },
    /// No task matched.
    Failed(LookupFailure),
}

/// Mark the task the query names as done, or as not done; a current session
/// that does not exist reads as an empty one.
pub fn handle_done(
    store: &mut Store,
    query: &String,
    threshold: u64,
    strict: bool,
    mark_done: bool,
) -> (r: DoneOutcome)
    requires
        old(store).wf(),
    ensures
        final(store).wf(),
        final(store).current == old(store).current,
        ({
            let cur = current_name_of(*old(store));
            let s0 = session_tasks(*old(store), cur);
            let s1 = session_tasks(*final(store), cur);
            match r {
                DoneOutcome::Marked { index, description } => {
                    &&& has_session(*old(store), cur)
                    &&& query_resolution(s0, query@, threshold as int, strict) == Some(index as int)
                    &&& description@ == s0[index as int].description@
                    &&& s0[index as int].done != mark_done
                    &&& same_but_session(*old(store), *final(store), cur)
                    &&& s1 == s0.update(
                        index as int,
                        (Task {
                            description: s0[index as int].description,
                            time: s0[index as int].time,
                            done: mark_done,
                        }),
                    )
                },
                DoneOutcome::Already { index, description } => {
                    &&& has_session(*old(store), cur)
                    &&& query_resolution(s0, query@, threshold as int, strict) == Some(index as int)
                    &&& description@ == s0[index as int].description@
                    &&& s0[index as int].done == mark_done
                    &&& *final(store) == *old(store)
                },
                DoneOutcome::Failed(f) => {
                    &&& *final(store) == *old(store)
                    &&& query_resolution(s0, query@, threshold as int, strict) is None
                    &&& failure_matches(f, s0, query@, threshold as int, strict)
                },
            }
        }),
{
    let cur_name = current_session_name(store);
    let found = store.find_session(&cur_name);
    match found {
        None => {
            proof {
                lemma_absent_session_is_empty(*store, cur_name@);
            }
            DoneOutcome::Failed(fail_on_empty(query, threshold, strict))
        },
        Some(si) => {
            proof {
                lemma_session_index_agrees(*store, cur_name@, si as int);
            }
            let fr = find_task(&store.sessions[si].tasks, query, threshold, strict);
            match fr.index {
                Some(idx) => {
                    let desc = store.sessions[si].tasks[idx].description.clone();
                    if store.sessions[si].tasks[idx].done != mark_done {
                        let ghost before = store.sessions@;
                        let ghost s0 = store.sessions@[si as int].tasks@;
                        let mut sess = store.sessions.remove(si);
                        let mut t = sess.tasks.remove(idx);
                        t.done = mark_done;
                        sess.tasks.insert(idx, t);
                        proof {
                            assert(sess.tasks@ =~= s0.update(
                                idx as int,
                                (Task {
                                    description: s0[idx as int].description,
                                    time: s0[idx as int].time,
                                    done: mark_done,
                                }),
                            ));
                        }
                        let ghost gs = sess;
                        store.sessions.insert(si, sess);
                        proof {
                            assert(store.sessions@ =~= before.update(si as int, gs));
                            lemma_wf_after_update(*old(store), *store, si as int);
                            lemma_session_index_agrees(*store, cur_name@, si as int);
                        }
                        DoneOutcome::Marked { index: idx, description: desc }
                    } else {
                        DoneOutcome::Already { index: idx, description: desc }
                    }
                },
                None => {
                    if fr.by_index {
                        DoneOutcome::Failed(LookupFailure::IndexNotFound)
                    } else {
                        match fr.candidate {
                            Some(c) => DoneOutcome::Failed(
                                LookupFailure::Suggestion {
                                    description: c.description,
                                    score: c.score,
                                },
                            ),
                            None => DoneOutcome::Failed(LookupFailure::NotFound),
                        }
                    }
                },
            }
        },
    }
}

/// What resolving alone yielded.
#[derive(Debug)]
pub enum ResolveOutcome {
    /// The query names the task at this position.
    Resolved { index: usize },
    /// No task matched.
    Failed(LookupFailure),
}

/// Resolve a query against the current session without touching anything:
/// rescheduling resolves first and parses its time argument after. A current
/// session that does not exist reads as an empty one.
pub fn resolve_in_current(store: &Store, query: &String, threshold: u64, strict: bool) -> (r:
    ResolveOutcome)
    requires
        store.wf(),
    ensures
        ({
            let cur = current_name_of(*store);
            let s0 = session_tasks(*store, cur);
            match r {
                ResolveOutcome::Resolved { index } => has_session(*store, cur) && query_resolution(
                    s0,
                    query@,
                    threshold as int,
                    strict,
                ) == Some(index as int),
                ResolveOutcome::Failed(f) => {
                    &&& query_resolution(s0, query@, threshold as int, strict) is None
                    &&& failure_matches(f, s0, query@, threshold as int, strict)
                },
            }
        }),
{
    let cur_name = current_session_name(store);
    let found = store.find_session(&cur_name);
    match found {
        None => {
            proof {
                lemma_absent_session_is_empty(*store, cur_name@);
            }
            ResolveOutcome::Failed(fail_on_empty(query, threshold, strict))
        },
        Some(si) => {
            proof {
                lemma_session_index_agrees(*store, cur_name@, si as int);
            }
            let fr = find_task(&store.sessions[si].tasks, query, threshold, strict);
            match fr.index {
                Some(idx) => ResolveOutcome::Resolved { index: idx },
                None => {
                    if fr.by_index {
                        ResolveOutcome::Failed(LookupFailure::IndexNotFound)
                    } else {
                        match fr.candidate {
                            Some(c) => ResolveOutcome::Failed(
                                LookupFailure::Suggestion {
                                    description: c.description,
                                    score: c.score,
                                },
                            ),
                            None => ResolveOutcome::Failed(LookupFailure::NotFound),
                        }
                    }
                },
            }
        },
    }
}

/// Give the task at `index` in the current session a new due time — or none,
/// which reads as open-ended — and re-sort the session. Returns the task's
/// description and its old time.
pub fn set_task_time(store: &mut Store, index: usize, time: Option<i64>) -> (r: (
    String,
    Option<i64>,
))
    requires
        old(store).wf(),
        has_session(*old(store), current_name_of(*old(store))),
        index < session_tasks(*old(store), current_name_of(*old(store))).len(),
    ensures
        final(store).wf(),
        final(store).current == old(store).current,
        ({
            let cur = current_name_of(*old(store));
            let s0 = session_tasks(*old(store), cur);
            let s1 = session_tasks(*final(store), cur);
            &&& r.0@ == s0[index as int].description@
            &&& r.1 == s0[index as int].time
            &&& same_but_session(*old(store), *final(store), cur)
            &&& sorted_by_time(s1)
            &&& s1.to_multiset() == s0.update(
                index as int,
                (Task {
                    description: s0[index as int].description,
                    time: time,
                    done: s0[index as int].done,
                }),
            ).to_multiset()
        }),
{
    let cur_name = current_session_name(store);
    let found = store.find_session(&cur_name);
    proof {
        if found is None {
            assert(false);
        }
    }
    let si = found.unwrap();
    proof {
        lemma_session_index_agrees(*store, cur_name@, si as int);
    }
    let ghost before = store.sessions@;
    let ghost s0 = store.sessions@[si as int].tasks@;
    let mut sess = store.sessions.remove(si);
    let mut t = sess.tasks.remove(index);
    let desc = t.description.clone();
    let old_time = t.time;
    t.time = time;
    sess.tasks.insert(index, t);
    proof {
        assert(sess.tasks@ =~= s0.update(
            index as int,
            (Task {
                description: s0[index as int].description,
                time: time,
                done: s0[index as int].done,
            }),
        ));
    }
    sort_tasks(&mut sess.tasks);
    let ghost gs = sess;
    store.sessions.insert(si, sess);
    proof {
        assert(store.sessions@ =~= before.update(si as int, gs));
        lemma_wf_after_update(*old(store), *store, si as int);
        lemma_session_index_agrees(*store, cur_name@, si as int);
    }
    (desc, old_time)
}

fn digit_str(d: u64) -> (r: &'static str)
    requires
        d <= 9,
    ensures
        r@ == seq![crate::date::digit_char(d as int)],
{
    proof {
        reveal_strlit("0");
        reveal_strlit("1");
        reveal_strlit("2");
        reveal_strlit("3");
        reveal_strlit("4");
        reveal_strlit("5");
        reveal_strlit("6");
        reveal_strlit("7");
        reveal_strlit("8");
        reveal_strlit("9");
    }
    let r: &'static str = if d == 0 {
        "0"
    } else if d == 1 {
        "1"
    } else if d == 2 {
        "2"
    } else if d == 3 {
        "3"
    } else if d == 4 {
        "4"
    } else if d == 5 {
        "5"
    } else if d == 6 {
        "6"
    } else if d == 7 {
        "7"
    } else if d == 8 {
        "8"
    } else {
        "9"
    };
    proof {
        assert(r@ =~= seq![crate::date::digit_char(d as int)]);
    }
    r
}

fn push_two(s: &mut String, n: u64)
    requires
        n <= 99,
    ensures
        final(s)@ == old(s)@ + crate::date::two_digits(n as int),
{
    s.append(digit_str(n / 10));
    s.append(digit_str(n % 10));
    proof {
        assert(s@ =~= old(s)@ + crate::date::two_digits(n as int));
    }
}

/// A task's due time as "YYYY-MM-DD HH:MM" in the configured local offset,
/// "end of times" for a task without one; nothing when the time lies outside
/// the representable calendar.
pub fn format_time(time: &Option<i64>, offset_hours: i64) -> (r: Option<String>)
    ensures
        (match *time {
            None => r matches Some(s) && s@ == "end of times"@,
            Some(t) => {
                let local = t + offset_hours * 3600;
                if 0 <= local < crate::date::SEC_COUNT {
                    r matches Some(s) && s@ == crate::date::civil_display(
                        crate::date::civil_of_local(local),
                    )
                } else {
                    r is None
                }
            },
        }),
{
    let t = match time {
        None => {
            return Some(String::from_str("end of times"));
        },
        Some(t) => *t,
    };
    let local_wide = (t as i128) + (offset_hours as i128) * 3600;
    if local_wide < 0 || local_wide >= crate::date::SEC_COUNT as i128 {
        return None;
    }
    let local = local_wide as i64;
    let c = crate::date::civil_of_secs(local as u64);
    proof {
        crate::date::lemma_civil_of_local_agrees(local as int, c);
    }
    let mut out = String::new();
    push_two(&mut out, c.year / 100);
    push_two(&mut out, c.year % 100);
    out.append("-");
    push_two(&mut out, c.month);
    out.append("-");
    push_two(&mut out, c.day);
    out.append(" ");
    push_two(&mut out, c.hour);
    out.append(":");
    push_two(&mut out, c.minute);
    proof {
        reveal_strlit("-");
        reveal_strlit(" ");
        reveal_strlit(":");
        assert(out@ =~= crate::date::civil_display(c));
    }
    Some(out)
}

/// Re-sort every session's tasks, as done right after loading.
pub fn resort_all(store: &mut Store)
    requires
        old(store).wf(),
    ensures
        final(store).wf(),
        final(store).current == old(store).current,
        final(store).sessions@.len() == old(store).sessions@.len(),
        forall|k: int|
            0 <= k < old(store).sessions@.len() ==> (#[trigger] final(store).sessions@[k]).name@
                == old(store).sessions@[k].name@,
        forall|k: int|
            0 <= k < old(store).sessions@.len() ==> sorted_by_time(
                (#[trigger] final(store).sessions@[k]).tasks@,
            ),
        forall|k: int|
            0 <= k < old(store).sessions@.len() ==> (#[trigger] final(store).sessions@[k]).tasks@.to_multiset()
                == old(store).sessions@[k].tasks@.to_multiset(),
{
    let mut k: usize = 0;
    while k < store.sessions.len()
        invariant
            k <= store.sessions@.len(),
            store.sessions@.len() == old(store).sessions@.len(),
            store.current == old(store).current,
            forall|j: int|
                k <= j < store.sessions@.len() ==> #[trigger] store.sessions@[j] == old(
                    store,
                ).sessions@[j],
            forall|j: int|
                0 <= j < k ==> (#[trigger] store.sessions@[j]).name@ == old(
                    store,
                ).sessions@[j].name@,
            forall|j: int| 0 <= j < k ==> sorted_by_time((#[trigger] store.sessions@[j]).tasks@),
            forall|j: int|
                0 <= j < k ==> (#[trigger] store.sessions@[j]).tasks@.to_multiset() == old(
                    store,
                ).sessions@[j].tasks@.to_multiset(),
        decreases store.sessions@.len() - k,
    {
        let ghost before = store.sessions@;
        let mut s = store.sessions.remove(k);
        sort_tasks(&mut s.tasks);
        let ghost gs = s;
        store.sessions.insert(k, s);
        proof {
            assert(store.sessions@ =~= before.update(k as int, gs));
            assert(before[k as int] == old(store).sessions@[k as int]);
            assert(gs.name@ == old(store).sessions@[k as int].name@);
            assert(forall|j: int|
                0 <= j < before.len() && j != k ==> #[trigger] store.sessions@[j] == before[j]);
        }
        k = k + 1;
    }
    proof {
        assert forall|a: int, b: int|
            0 <= a < b < store.sessions@.len() implies store.sessions@[a].name@
            != store.sessions@[b].name@ by {
            assert(store.sessions@[a].name@ == old(store).sessions@[a].name@);
            assert(store.sessions@[b].name@ == old(store).sessions@[b].name@);
            assert(old(store).sessions@[a].name@ != old(store).sessions@[b].name@);
        }
    }
}

} // verus!
