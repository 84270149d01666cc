//! The data model: tasks, named sessions, and the store that holds them.

use vstd::prelude::*;

verus! {

broadcast use vstd::seq_lib::group_to_multiset_ensures;

/// One task: a description, an optional due time in seconds UTC, and a
/// completion flag.
#[derive(Clone)]
pub struct Task {
    pub description: String,
    pub time: Option<i64>,
    pub done: bool,
}

/// A named, independent task list.
pub struct Session {
    pub name: String,
    pub tasks: Vec<Task>,
}

/// All sessions, plus the name of the current one, if any was chosen.
pub struct Store {
    pub current: Option<String>,
    pub sessions: Vec<Session>,
}

/// Sort order on tasks: ascending due time, with tasks lacking a time after
/// all timed tasks; equal or absent times are not ordered further.
pub open spec fn time_le(a: Task, b: Task) -> bool {
    match (a.time, b.time) {
        (Some(t1), Some(t2)) => t1 <= t2,
        (Some(_), None) => true,
        (None, Some(_)) => false,
        (None, None) => true,
    }
}

pub open spec fn sorted_by_time(s: Seq<Task>) -> bool {
    forall|i: int, j: int| 0 <= i < j < s.len() ==> time_le(s[i], s[j])
}

fn time_le_x(a: &Task, b: &Task) -> (r: bool)
    ensures
        r == time_le(*a, *b),
{
    match (a.time, b.time) {
        (Some(t1), Some(t2)) => t1 <= t2,
        (Some(_), None) => true,
        (None, Some(_)) => false,
        (None, None) => true,
    }
}

/// A task inserted into a sorted list lands behind every task that sorts at
/// or before it: tasks with tying times stay behind their earlier equals.
pub open spec fn insert_by_time(s: Seq<Task>, t: Task) -> Seq<Task>
    decreases s.len(),
{
    if s.len() == 0 {
        seq![t]
    } else if time_le(s.last(), t) {
        s.push(t)
    } else {
        insert_by_time(s.drop_last(), t).push(s.last())
    }
}

/// The stable sort by time: tasks are taken in their given order and each
/// inserted behind its equals, so tying tasks keep their relative order.
pub open spec fn stable_sorted(s: Seq<Task>) -> Seq<Task>
    decreases s.len(),
{
    if s.len() == 0 {
        s
    } else {
        insert_by_time(stable_sorted(s.drop_last()), s.last())
    }
}

/// Where the insertion lands, named by its position: after `j` tasks that
/// sort at or before the new one.
proof fn lemma_insert_by_time_at(s: Seq<Task>, t: Task, j: int)
    requires
        0 <= j <= s.len(),
        j > 0 ==> time_le(s[j - 1], t),
        forall|k: int| j <= k < s.len() ==> !time_le(s[k], t),
    ensures
        insert_by_time(s, t) == s.subrange(0, j) + seq![t] + s.subrange(j, s.len() as int),
    decreases s.len(),
{
    if s.len() == 0 {
        assert(insert_by_time(s, t) =~= s.subrange(0, j) + seq![t] + s.subrange(
            j,
            s.len() as int,
        ));
    } else if time_le(s.last(), t) {
        assert(j == s.len());
        assert(s.push(t) =~= s.subrange(0, j) + seq![t] + s.subrange(j, s.len() as int));
    } else {
        assert(forall|k: int|
            j <= k < s.len() - 1 ==> s.drop_last()[k] == s[k] && !time_le(s[k], t));
        lemma_insert_by_time_at(s.drop_last(), t, j);
        assert(insert_by_time(s.drop_last(), t).push(s.last()) =~= s.subrange(0, j) + seq![t]
            + s.subrange(j, s.len() as int));
    }
}

/// Sorting a list that already stands in sort order changes nothing, so a
/// second sort returns the same list: the sort is idempotent.
pub proof fn lemma_stable_sorted_identity(s: Seq<Task>)
    requires
        sorted_by_time(s),
    ensures
        stable_sorted(s) == s,
    decreases s.len(),
{
    if s.len() > 0 {
        assert(sorted_by_time(s.drop_last())) by {
            assert(forall|k: int| 0 <= k < s.len() - 1 ==> s.drop_last()[k] == s[k]);
        }
        lemma_stable_sorted_identity(s.drop_last());
        if s.len() == 1 {
            assert(insert_by_time(s.drop_last(), s.last()) =~= s);
        } else {
            assert(time_le(s[s.len() - 2], s[s.len() - 1]));
            assert(s.drop_last().push(s.last()) =~= s);
        }
    }
}

/// Re-sort a task list: the stable insertion sort by time, so all timed
/// tasks come first in ascending time order, the tasks without a time after
/// them, and tying tasks keep their relative order.
pub fn sort_tasks(tasks: &mut Vec<Task>)
    ensures
        final(tasks)@ == stable_sorted(old(tasks)@),
        sorted_by_time(final(tasks)@),
        final(tasks)@.to_multiset() == old(tasks)@.to_multiset(),
        final(tasks)@.len() == old(tasks)@.len(),
{
    if tasks.len() == 0 {
        return ;
    }
    proof {
        let s1 = old(tasks)@.subrange(0, 1);
        assert(s1.len() == 1);
        assert(s1.drop_last() =~= Seq::<Task>::empty());
        assert(stable_sorted(s1.drop_last()).len() == 0);
        assert(insert_by_time(stable_sorted(s1.drop_last()), s1.last()) == seq![s1.last()]);
        assert(stable_sorted(s1) =~= s1);
        assert(tasks@ =~= s1 + old(tasks)@.skip(1));
    }
    let mut i: usize = 1;
    while i < tasks.len()
        invariant
            1 <= i <= tasks@.len(),
            sorted_by_time(tasks@.subrange(0, i as int)),
            tasks@ == stable_sorted(old(tasks)@.subrange(0, i as int)) + old(tasks)@.skip(
                i as int,
            ),
            tasks@.to_multiset() == old(tasks)@.to_multiset(),
            tasks@.len() == old(tasks)@.len(),
        decreases tasks@.len() - i,
    {
        proof {
            assert(tasks@[i as int] == old(tasks)@[i as int]) by {
                assert(old(tasks)@.skip(i as int)[0] == old(tasks)@[i as int]);
            }
        }
        let t = tasks.remove(i);
        let ghost before = tasks@;
        let mut j: usize = i;
        while j > 0 && !time_le_x(&tasks[j - 1], &t)
            invariant
                j <= i,
                i <= tasks@.len(),
                tasks@ == before,
                sorted_by_time(tasks@.subrange(0, i as int)),
                forall|k: int| j <= k < i ==> !time_le(tasks@[k], t),
            decreases j,
        {
            j = j - 1;
        }
        proof {
            let s = tasks@.subrange(0, i as int);
            assert forall|k: int| 0 <= k < j implies time_le(tasks@[k], t) by {
                if k < j - 1 {
                    assert(time_le(s[k], s[j - 1]));
                    assert(s[k] == tasks@[k] && s[j - 1] == tasks@[j - 1]);
                }
                assert(time_le(tasks@[j - 1], t));
            }
        }
        let ghost pre_insert = tasks@;
        tasks.insert(j, t);
        proof {
            let sorted_pre = stable_sorted(old(tasks)@.subrange(0, i as int));
            let new_pre = stable_sorted(old(tasks)@.subrange(0, i as int + 1));
            assert(sorted_by_time(tasks@.subrange(0, i as int + 1))) by {
                let s = tasks@.subrange(0, i as int + 1);
                assert forall|a: int, b: int| 0 <= a < b < s.len() implies time_le(
                    s[a],
                    s[b],
                ) by {
                    if a < j && b == j {
                    } else if a == j && b > j {
                        assert(!time_le(pre_insert[b - 1], t));
                    } else if a < j && b > j {
                        assert(time_le(pre_insert[a], t));
                        assert(!time_le(pre_insert[b - 1], t));
                    }
                }
            }
            assert(tasks@ == new_pre + old(tasks)@.skip(i as int + 1)) by {
                assert(old(tasks)@.subrange(0, i as int + 1).drop_last() =~= old(
                    tasks,
                )@.subrange(0, i as int));
                assert(old(tasks)@.subrange(0, i as int + 1).last() == old(tasks)@[i as int]);
                assert(new_pre == insert_by_time(sorted_pre, t));
                assert(forall|k: int| 0 <= k < i ==> before[k] == sorted_pre[k]);
                assert(forall|k: int|
                    j <= k < i ==> !time_le(sorted_pre[k], t) && (k > 0 ==> sorted_pre[k]
                        == before[k]));
                lemma_insert_by_time_at(sorted_pre, t, j as int);
                assert(sorted_pre.subrange(0, j as int) =~= before.subrange(0, j as int));
                assert(sorted_pre.subrange(j as int, sorted_pre.len() as int) + before.subrange(
                    i as int,
                    before.len() as int,
                ) =~= before.subrange(j as int, before.len() as int));
                assert(tasks@ =~= pre_insert.insert(j as int, t));
                assert(tasks@ =~= insert_by_time(sorted_pre, t) + old(tasks)@.skip(i as int + 1));
            }
        }
        i = i + 1;
    }
    proof {
        assert(old(tasks)@.subrange(0, tasks@.len() as int) == old(tasks)@);
        assert(old(tasks)@.skip(tasks@.len() as int) =~= Seq::<Task>::empty());
        assert(tasks@ =~= stable_sorted(old(tasks)@));
        assert(tasks@.subrange(0, tasks@.len() as int) == tasks@);
    }
}

/// Number of completed tasks in a list.
pub open spec fn done_count(s: Seq<Task>) -> int
    decreases s.len(),
{
    if s.len() == 0 {
        0
    } else {
        done_count(s.drop_last()) + if s.last().done {
            1int
        } else {
            0int
        }
    }
}

/// Count the completed tasks.
pub fn completed_count(tasks: &Vec<Task>) -> (r: usize)
    ensures
        r == done_count(tasks@),
        r <= tasks@.len(),
{
    let mut r: usize = 0;
    let mut i: usize = 0;
    while i < tasks.len()
        invariant
            i <= tasks@.len(),
            r == done_count(tasks@.subrange(0, i as int)),
            r <= i,
        decreases tasks@.len() - i,
    {
        let ghost pre = tasks@.subrange(0, i as int);
        if tasks[i].done {
            r = r + 1;
        }
        proof {
            assert(tasks@.subrange(0, i as int + 1).drop_last() == pre);
        }
        i = i + 1;
    }
    proof {
        assert(tasks@.subrange(0, tasks@.len() as int) == tasks@);
    }
    r
}

/// Longest description, in bytes, but never less than `minimum`.
pub open spec fn max_description_len(s: Seq<Task>, minimum: int) -> int
    decreases s.len(),
{
    if s.len() == 0 {
        minimum
    } else {
        let rest = max_description_len(s.drop_last(), minimum);
        let cur = s.last().description@.len() as int;
        if cur > rest {
            cur
        } else {
            rest
        }
    }
}

/// Width of the description column: the longest description in characters,
/// with the given floor.
pub fn get_max_description_length(tasks: &Vec<Task>, minimum: usize) -> (r: usize)
    ensures
        r == max_description_len(tasks@, minimum as int),
{
    let mut r: usize = minimum;
    let mut i: usize = 0;
    while i < tasks.len()
        invariant
            i <= tasks@.len(),
            r == max_description_len(tasks@.subrange(0, i as int), minimum as int),
        decreases tasks@.len() - i,
    {
        let ghost pre = tasks@.subrange(0, i as int);
        let l = tasks[i].description.as_str().unicode_len();
        if l > r {
            r = l;
        }
        proof {
            assert(tasks@.subrange(0, i as int + 1).drop_last() == pre);
        }
        i = i + 1;
    }
    proof {
        assert(tasks@.subrange(0, tasks@.len() as int) == tasks@);
    }
    r
}

/// Longest description over all sessions, with the given floor.
pub open spec fn max_description_all(ss: Seq<Session>, minimum: int) -> int
    decreases ss.len(),
{
    if ss.len() == 0 {
        minimum
    } else {
        let rest = max_description_all(ss.drop_last(), minimum);
        let cur = max_description_len(ss.last().tasks@, minimum);
        if cur > rest {
            cur
        } else {
            rest
        }
    }
}

/// One shared description-column width across every session.
pub fn max_description_across(store: &Store, minimum: usize) -> (r: usize)
    ensures
        r == max_description_all(store.sessions@, minimum as int),
{
    let mut r: usize = minimum;
    let mut i: usize = 0;
    while i < store.sessions.len()
        invariant
            i <= store.sessions@.len(),
            r == max_description_all(store.sessions@.subrange(0, i as int), minimum as int),
        decreases store.sessions@.len() - i,
    {
        let ghost pre = store.sessions@.subrange(0, i as int);
        let w = get_max_description_length(&store.sessions[i].tasks, minimum);
        if w > r {
            r = w;
        }
        proof {
            assert(store.sessions@.subrange(0, i as int + 1).drop_last() == pre);
        }
        i = i + 1;
    }
    proof {
        assert(store.sessions@.subrange(0, store.sessions@.len() as int) == store.sessions@);
    }
    r
}

impl Store {
    /// An empty store: no sessions, no current session.
    pub fn new() -> (s: Store)
        ensures
            s.sessions@.len() == 0,
            s.current.is_none(),
    {
        Store { current: None, sessions: Vec::new() }
    }

    /// The index of the session with this name, if one exists.
    pub open spec fn spec_find_session(self, name: Seq<char>) -> Option<int> {
        if exists|i: int| 0 <= i < self.sessions@.len() && self.sessions@[i].name@ == name {
            Some(
                choose|i: int| 0 <= i < self.sessions@.len() && self.sessions@[i].name@ == name,
            )
        } else {
            None
        }
    }

    /// Session names are unique.
    pub open spec fn wf(self) -> bool {
        forall|i: int, j: int|
            0 <= i < j < self.sessions@.len() ==> self.sessions@[i].name@
                != self.sessions@[j].name@
    }

    /// Check the store's invariant: no two sessions share a name.
    pub fn names_unique(&self) -> (r: bool)
        ensures
            r == self.wf(),
    {
        let mut i: usize = 0;
        while i < self.sessions.len()
            invariant
                i <= self.sessions@.len(),
                forall|a: int, b: int|
                    0 <= a < b < self.sessions@.len() && a < i ==> self.sessions@[a].name@
                        != self.sessions@[b].name@,
            decreases self.sessions@.len() - i,
        {
            let mut j: usize = i + 1;
            while j < self.sessions.len()
                invariant
                    i < j <= self.sessions@.len(),
                    i < self.sessions@.len(),
                    forall|b: int|
                        i < b < j ==> self.sessions@[i as int].name@ != self.sessions@[b].name@,
                decreases self.sessions@.len() - j,
            {
                if self.sessions[i].name.eq(&self.sessions[j].name) {
                    proof {
                        assert(self.sessions@[i as int].name@ == self.sessions@[j as int].name@);
                    }
                    return false;
                }
                j = j + 1;
            }
            i = i + 1;
        }
        true
    }

    /// Find the session with this name.
    pub fn find_session(&self, name: &String) -> (r: Option<usize>)
        ensures
            match r {
                Some(i) => i < self.sessions@.len() && self.sessions@[i as int].name@ == name@,
                None => forall|i: int|
                    0 <= i < self.sessions@.len() ==> self.sessions@[i].name@ != name@,
            },
    {
        let mut i: usize = 0;
        while i < self.sessions.len()
            invariant
                i <= self.sessions@.len(),
                forall|k: int| 0 <= k < i ==> self.sessions@[k].name@ != name@,
            decreases self.sessions@.len() - i,
        {
            if self.sessions[i].name.eq(name) {
                return Some(i);
            }
            i = i + 1;
        }
        None
    }
}

} // verus!
