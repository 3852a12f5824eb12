//! The task-list changes behind single commands: branch moves and copies, creating, editing,
//! completing, archiving and deleting tasks, and settings.

use vstd::prelude::*;

use crate::branch::{branch_norm, normalize_branch};
use crate::date::{due_from_key, parse_due, Clock, Date};
use crate::model::{
    default_list_columns, task_views, AppConfig, EncouragementMode, GreetingStyle, IdScope,
    ListColumn, ListViewStyle, Priority, Repeat, SortKey, SummaryScope, Task, TaskView, UserProfile,
};
use crate::model::copy_text;
use crate::ops::{
    apply_tag_changes, done_view, id_room, in_branch, is_successor, lemma_max_id, lemma_room_ids,
    mark_done_with_repeat, max_id, moved, new_uid, next_task_id, rank, spawns, tags_changed,
    ID_LIMIT,
};
use crate::text::{
    eq_ignore_case, lower_of, normalize_tags, opt_text, same_text, sorted_set, tag_set, texts,
    trim_of,
};

verus! {

/// Tasks of branch `b`, ignoring ASCII case.
pub open spec fn branch_pred(b: Seq<char>) -> spec_fn(TaskView) -> bool {
    |t: TaskView| in_branch(t, b)
}

/// Moves every task of branch `from` to branch `to`, renumbering them from the target's next
/// free id under branch-scoped ids. Returns how many moved.
pub fn move_branch(tasks: &mut Vec<Task>, from: &str, to: &str, scope: IdScope) -> (r: usize)
    requires
        id_room(task_views(old(tasks)@)),
    ensures
        crate::ops::move_outcome(
            task_views(old(tasks)@),
            task_views(final(tasks)@),
            branch_pred(from@),
            to@,
            scope,
            r as int,
        ),
{
    let ghost before = task_views(tasks@);
    let ghost p = branch_pred(from@);
    let mut count: usize = 0;
    proof {
        lemma_room_ids(tasks@);
        lemma_max_id(before, scope, to@, ID_LIMIT - 1);
    }
    let mut next_id = next_task_id(tasks.as_slice(), scope, Some(to));
    let ghost start = next_id as int;
    let mut i: usize = 0;
    while i < tasks.len()
        invariant
            i <= tasks.len(),
            tasks@.len() == before.len(),
            p == branch_pred(from@),
            id_room(before),
            start == max_id(before, scope, to@) + 1,
            start <= ID_LIMIT,
            count == rank(before, i as int, p),
            count <= i,
            scope == IdScope::Branch ==> next_id == start + count,
            forall|k: int|
                0 <= k < i ==> #[trigger] tasks@[k]@ == if p(before[k]) {
                    moved(before[k], to@, scope, start + rank(before, k, p))
                } else {
                    before[k]
                },
            forall|k: int| i <= k < tasks@.len() ==> #[trigger] tasks@[k]@ == before[k],
        decreases tasks.len() - i,
    {
        let ghost prev = before.take(i as int);
        proof {
            assert(before.take(i + 1) =~= prev.push(before[i as int]));
            prev.lemma_filter_push(before[i as int], p);
            assert(tasks@[i as int]@ == before[i as int]);
        }
        if eq_ignore_case(tasks[i].branch.as_str(), from) {
            let mut t = tasks[i].copy();
            t.branch = String::from_str(to);
            if scope == IdScope::Branch {
                t.id = next_id;
                next_id = next_id + 1;
            }
            tasks.set(i, t);
            count += 1;
        }
        i = i + 1;
    }
    assert(before.take(i as int) =~= before);
    count
}

/// `c` copies `t` into branch `to` with id `id`, stamped `stamp`, with a fresh uid (not `t`'s) when
/// `use_uuid` is set.
pub open spec fn is_copy(t: TaskView, c: TaskView, to: Seq<char>, id: int, stamp: Seq<char>, use_uuid: bool) -> bool {
    &&& TaskView { id: t.id, branch: t.branch, created_at: t.created_at, uid: t.uid, ..c } == t
    &&& c.id == id
    &&& c.branch == to
    &&& c.created_at == stamp
    &&& if use_uuid {
        c.uid is Some && c.uid != t.uid
    } else {
        c.uid == t.uid
    }
}

/// Appends a copy of every task of branch `from` to branch `to`, numbered from the target's
/// next free id. Returns how many were copied.
pub fn duplicate_branch(
    tasks: &mut Vec<Task>,
    from: &str,
    to: &str,
    scope: IdScope,
    use_uuid: bool,
    clock: &Clock,
) -> (r: usize)
    requires
        id_room(task_views(old(tasks)@)),
    ensures
        ({
            let before = task_views(old(tasks)@);
            let after = task_views(final(tasks)@);
            let src = before.filter(branch_pred(from@));
            let start = max_id(before, scope, to@) + 1;
            &&& r == src.len()
            &&& after.len() == before.len() + src.len()
            &&& forall|k: int| 0 <= k < before.len() ==> #[trigger] after[k] == before[k]
            &&& forall|j: int|
                0 <= j < src.len() ==> is_copy(
                    src[j],
                    #[trigger] after[before.len() + j],
                    to@,
                    start + j,
                    clock.timestamp@,
                    use_uuid,
                )
        }),
{
    let ghost before = task_views(tasks@);
    let ghost p = branch_pred(from@);
    proof {
        lemma_room_ids(tasks@);
        lemma_max_id(before, scope, to@, ID_LIMIT - 1);
    }
    let mut next_id = next_task_id(tasks.as_slice(), scope, Some(to));
    let ghost start = next_id as int;
    let mut copies: Vec<Task> = Vec::new();
    let mut i: usize = 0;
    while i < tasks.len()
        invariant
            i <= tasks.len(),
            before == task_views(tasks@),
            p == branch_pred(from@),
            id_room(before),
            start == max_id(before, scope, to@) + 1,
            start <= ID_LIMIT,
            copies@.len() == before.take(i as int).filter(p).len(),
            copies@.len() <= i,
            next_id == start + copies@.len(),
            forall|j: int|
                0 <= j < copies@.len() ==> is_copy(
                    before.take(i as int).filter(p)[j],
                    #[trigger] copies@[j]@,
                    to@,
                    start + j,
                    clock.timestamp@,
                    use_uuid,
                ),
        decreases tasks.len() - i,
    {
        let ghost prev = before.take(i as int);
        proof {
            assert(before.take(i + 1) =~= prev.push(before[i as int]));
            prev.lemma_filter_push(before[i as int], p);
        }
        if eq_ignore_case(tasks[i].branch.as_str(), from) {
            let mut c = tasks[i].copy();
            c.id = next_id;
            c.branch = String::from_str(to);
            c.created_at = clock.timestamp.clone();
            if use_uuid {
                c.uid = Some(crate::ops::fresh_uid(&tasks[i].uid));
            }
            next_id = next_id + 1;
            copies.push(c);
        }
        i = i + 1;
    }
    assert(before.take(i as int) =~= before);
    let n = copies.len();
    let ghost added = copies@;
    let ghost kept = tasks@;
    tasks.append(&mut copies);
    proof {
        let after = task_views(tasks@);
        assert forall|k: int| 0 <= k < before.len() implies #[trigger] after[k] == before[k] by {
            assert(tasks@[k] == kept[k]);
        }
        assert forall|j: int| 0 <= j < added.len() implies is_copy(
            before.filter(p)[j],
            #[trigger] after[before.len() + j],
            to@,
            start + j,
            clock.timestamp@,
            use_uuid,
        ) by {
            assert(tasks@[before.len() + j] == added[j]);
        }
    }
    n
}

/// Tasks outside branch `b`.
pub open spec fn other_branch_pred(b: Seq<char>) -> spec_fn(TaskView) -> bool {
    |t: TaskView| !in_branch(t, b)
}

/// How many tasks branch `branch` holds.
pub fn branch_task_count(tasks: &[Task], branch: &str) -> (r: usize)
    ensures
        r == task_views(tasks@).filter(branch_pred(branch@)).len(),
{
    let ghost before = task_views(tasks@);
    let mut count: usize = 0;
    let mut i: usize = 0;
    while i < tasks.len()
        invariant
            i <= tasks.len(),
            before == task_views(tasks@),
            count == before.take(i as int).filter(branch_pred(branch@)).len(),
            count <= i,
        decreases tasks.len() - i,
    {
        proof {
            assert(before.take(i + 1) =~= before.take(i as int).push(before[i as int]));
            before.take(i as int).lemma_filter_push(before[i as int], branch_pred(branch@));
        }
        if eq_ignore_case(tasks[i].branch.as_str(), branch) {
            count += 1;
        }
        i = i + 1;
    }
    assert(before.take(i as int) =~= before);
    count
}

/// Removes every task of branch `branch`; returns how many went.
pub fn delete_branch(tasks: &mut Vec<Task>, branch: &str) -> (r: usize)
    ensures
        task_views(final(tasks)@) == task_views(old(tasks)@).filter(other_branch_pred(branch@)),
        r == old(tasks)@.len() - final(tasks)@.len(),
{
    let ghost before = task_views(tasks@);
    let ghost p = other_branch_pred(branch@);
    let mut kept: Vec<Task> = Vec::new();
    let mut i: usize = 0;
    while i < tasks.len()
        invariant
            i <= tasks.len(),
            before == task_views(tasks@),
            p == other_branch_pred(branch@),
            task_views(kept@) == before.take(i as int).filter(p),
        decreases tasks.len() - i,
    {
        proof {
            assert(before.take(i + 1) =~= before.take(i as int).push(before[i as int]));
            before.take(i as int).lemma_filter_push(before[i as int], p);
        }
        if !eq_ignore_case(tasks[i].branch.as_str(), branch) {
            let ghost kv = task_views(kept@);
            kept.push(tasks[i].copy());
            assert(task_views(kept@) =~= kv.push(before[i as int]));
        }
        i = i + 1;
    }
    assert(before.take(i as int) =~= before);
    let n = tasks.len();
    proof {
        before.filter(p).lemma_filter_len(p);
    }
    *tasks = kept;
    assert(task_views(tasks@).len() == tasks@.len());
    n - tasks.len()
}

/// Tasks whose id is not `id`.
pub open spec fn other_id_pred(id: u64) -> spec_fn(TaskView) -> bool {
    |t: TaskView| t.id != id
}

/// Open tasks.
pub open spec fn open_pred() -> spec_fn(TaskView) -> bool {
    |t: TaskView| !t.done
}

/// Removes every task with id `id`; returns whether any went.
pub fn delete_by_id(tasks: &mut Vec<Task>, id: u64) -> (r: bool)
    ensures
        task_views(final(tasks)@) == task_views(old(tasks)@).filter(other_id_pred(id)),
        r == (final(tasks)@.len() < old(tasks)@.len()),
{
    let ghost before = task_views(tasks@);
    let ghost p = other_id_pred(id);
    let mut kept: Vec<Task> = Vec::new();
    let mut i: usize = 0;
    while i < tasks.len()
        invariant
            i <= tasks.len(),
            before == task_views(tasks@),
            p == other_id_pred(id),
            task_views(kept@) == before.take(i as int).filter(p),
        decreases tasks.len() - i,
    {
        proof {
            assert(before.take(i + 1) =~= before.take(i as int).push(before[i as int]));
            before.take(i as int).lemma_filter_push(before[i as int], p);
        }
        if tasks[i].id != id {
            let ghost kv = task_views(kept@);
            kept.push(tasks[i].copy());
            assert(task_views(kept@) =~= kv.push(before[i as int]));
        }
        i = i + 1;
    }
    assert(before.take(i as int) =~= before);
    let n = tasks.len();
    proof {
        before.filter(p).lemma_filter_len(p);
    }
    *tasks = kept;
    assert(task_views(tasks@).len() == tasks@.len());
    tasks.len() < n
}

/// Removes every done task; returns how many went.
pub fn clear_done(tasks: &mut Vec<Task>) -> (r: usize)
    ensures
        task_views(final(tasks)@) == task_views(old(tasks)@).filter(open_pred()),
        r == old(tasks)@.len() - final(tasks)@.len(),
{
    let ghost before = task_views(tasks@);
    let ghost p = open_pred();
    let mut kept: Vec<Task> = Vec::new();
    let mut i: usize = 0;
    while i < tasks.len()
        invariant
            i <= tasks.len(),
            before == task_views(tasks@),
            p == open_pred(),
            task_views(kept@) == before.take(i as int).filter(p),
        decreases tasks.len() - i,
    {
        proof {
            assert(before.take(i + 1) =~= before.take(i as int).push(before[i as int]));
            before.take(i as int).lemma_filter_push(before[i as int], p);
        }
        if !tasks[i].done {
            let ghost kv = task_views(kept@);
            kept.push(tasks[i].copy());
            assert(task_views(kept@) =~= kv.push(before[i as int]));
        }
        i = i + 1;
    }
    assert(before.take(i as int) =~= before);
    let n = tasks.len();
    proof {
        before.filter(p).lemma_filter_len(p);
    }
    *tasks = kept;
    assert(task_views(tasks@).len() == tasks@.len());
    n - tasks.len()
}

/// The first index holding a task with id `id`.
pub open spec fn first_with_id(tasks: Seq<TaskView>, id: u64) -> Option<int> {
    if exists|k: int| 0 <= k < tasks.len() && tasks[k].id == id {
        Some(
            choose|k: int|
                0 <= k < tasks.len() && tasks[k].id == id && forall|j: int|
                    0 <= j < k ==> (#[trigger] tasks[j]).id != id,
        )
    } else {
        None
    }
}

/// The position of the first task with id `id`.
pub fn find_task(tasks: &[Task], id: u64) -> (r: Option<usize>)
    ensures
        r matches Some(k) ==> k < tasks@.len() && tasks@[k as int].id == id,
        match r {
            Some(k) => first_with_id(task_views(tasks@), id) == Some(k as int),
            None => first_with_id(task_views(tasks@), id) is None,
        },
{
    let ghost v = task_views(tasks@);
    let mut i: usize = 0;
    while i < tasks.len()
        invariant
            i <= tasks.len(),
            v == task_views(tasks@),
            forall|j: int| 0 <= j < i ==> (#[trigger] v[j]).id != id,
        decreases tasks.len() - i,
    {
        if tasks[i].id == id {
            proof {
                assert(v[i as int].id == id);
                let k = choose|k: int|
                    0 <= k < v.len() && v[k].id == id && forall|j: int| 0 <= j < k ==> (#[trigger] v[j]).id != id;
                if k > i {
                    assert(v[i as int].id != id);
                }
                assert(k == i);
            }
            return Some(i);
        }
        assert(v[i as int].id != id);
        i = i + 1;
    }
    None
}

/// Marks the first task with id `id` done, appending its successor where it repeats. Returns
/// whether there was such a task.
#[verifier::rlimit(60)]
pub fn done_by_id(tasks: &mut Vec<Task>, id: u64, scope: IdScope, use_uuid: bool, clock: &Clock) -> (r: bool)
    requires
        id_room(task_views(old(tasks)@)),
        crate::model::all_wf(task_views(old(tasks)@)),
        clock.today.wf(),
    ensures
        ({
            let before = task_views(old(tasks)@);
            let after = task_views(final(tasks)@);
            match first_with_id(before, id) {
                None => !r && after == before,
                Some(k) => r && done_outcome(before, after, k, scope, clock.today, clock.timestamp@, use_uuid),
            }
        }),
{
    let ghost before = task_views(tasks@);
    match find_task(tasks.as_slice(), id) {
        None => false,
        Some(pos) => {
            proof {
                lemma_room_ids(tasks@);
                lemma_max_id(before, scope, tasks@[pos as int].branch@, ID_LIMIT - 1);
            }
            let mut next_id = next_task_id(tasks.as_slice(), scope, Some(tasks[pos].branch.as_str()));
            let mut t = tasks[pos].copy();
            assert(t@ == before[pos as int]);
            assert(t@.wf());
            let spawned = mark_done_with_repeat(&mut t, &mut next_id, use_uuid, clock);
            tasks.set(pos, t);
            let ghost mid = tasks@;
            match spawned {
                Some(c) => {
                    tasks.push(c);
                    proof {
                        assert(task_views(tasks@) =~= task_views(mid).push(c@));
                    }
                },
                None => {},
            }
            proof {
                assert(task_views(mid) =~= before.update(pos as int, task_views(mid)[pos as int]));
                assert(task_views(tasks@).take(before.len() as int) =~= task_views(mid));
            }
            true
        },
    }
}

/// What completing the task at `k` makes of the list: it is marked done, and where it repeats
/// its successor, numbered from its branch's next free id, is appended.
pub open spec fn done_outcome(
    before: Seq<TaskView>,
    after: Seq<TaskView>,
    k: int,
    scope: IdScope,
    today: Date,
    stamp: Seq<char>,
    use_uuid: bool,
) -> bool {
    let t = before[k];
    let start = max_id(before, scope, t.branch) + 1;
    &&& after.take(before.len() as int) == before.update(k, if t.done { t } else { done_view(t) })
    &&& if spawns(t, today) {
        after.len() == before.len() + 1 && is_successor(t, after.last(), start, today, stamp, use_uuid)
    } else {
        after.len() == before.len()
    }
}

/// Completes the first task with id `id` when it is open, or reopens it when it is done.
/// Returns whether there was such a task.
pub fn toggle_by_id(tasks: &mut Vec<Task>, id: u64, scope: IdScope, use_uuid: bool, clock: &Clock) -> (r: bool)
    requires
        id_room(task_views(old(tasks)@)),
        crate::model::all_wf(task_views(old(tasks)@)),
        clock.today.wf(),
    ensures
        ({
            let before = task_views(old(tasks)@);
            let after = task_views(final(tasks)@);
            match first_with_id(before, id) {
                None => !r && after == before,
                Some(k) => r && if before[k].done {
                    after == before.update(k, TaskView { done: false, ..before[k] })
                } else {
                    done_outcome(before, after, k, scope, clock.today, clock.timestamp@, use_uuid)
                },
            }
        }),
{
    match find_task(tasks.as_slice(), id) {
        None => false,
        Some(pos) => {
            if tasks[pos].done {
                let ghost before = task_views(tasks@);
                let mut t = tasks[pos].copy();
                t.done = false;
                tasks.set(pos, t);
                assert(task_views(tasks@) =~= before.update(pos as int, t@));
                true
            } else {
                done_by_id(tasks, id, scope, use_uuid, clock)
            }
        },
    }
}

/// A field of a task that a single-task command sets.
pub enum TaskFlag {
    Done(bool),
    Archived(bool),
}

/// The task with the flag set.
pub open spec fn flagged(t: TaskView, f: TaskFlag) -> TaskView {
    match f {
        TaskFlag::Done(x) => TaskView { done: x, ..t },
        TaskFlag::Archived(x) => TaskView { archived: x, ..t },
    }
}

/// Sets a flag on the first task with id `id`: reopening, archiving or unarchiving it.
/// Returns whether there was such a task.
pub fn set_flag_by_id(tasks: &mut Vec<Task>, id: u64, flag: TaskFlag) -> (r: bool)
    ensures
        ({
            let before = task_views(old(tasks)@);
            let after = task_views(final(tasks)@);
            match first_with_id(before, id) {
                None => !r && after == before,
                Some(k) => r && after == before.update(k, flagged(before[k], flag)),
            }
        }),
{
    let ghost before = task_views(tasks@);
    match find_task(tasks.as_slice(), id) {
        None => false,
        Some(pos) => {
            let mut t = tasks[pos].copy();
            match flag {
                TaskFlag::Done(x) => {
                    t.done = x;
                },
                TaskFlag::Archived(x) => {
                    t.archived = x;
                },
            }
            tasks.set(pos, t);
            assert(task_views(tasks@) =~= before.update(pos as int, t@));
            true
        },
    }
}

/// Archives the first task with id `id`; returns 1, or 0 where there is none.
pub fn archive_by_id(tasks: &mut Vec<Task>, id: u64) -> (r: usize)
    ensures
        ({
            let before = task_views(old(tasks)@);
            let after = task_views(final(tasks)@);
            match first_with_id(before, id) {
                None => r == 0 && after == before,
                Some(k) => r == 1 && after == before.update(k, TaskView { archived: true, ..before[k] }),
            }
        }),
{
    if set_flag_by_id(tasks, id, TaskFlag::Archived(true)) {
        1
    } else {
        0
    }
}

/// Done tasks not yet archived, in branch `b`, or anywhere when `b` is `None`.
pub open spec fn archivable(t: TaskView, b: Option<Seq<char>>) -> bool {
    t.done && !t.archived && match b {
        Some(x) => in_branch(t, x),
        None => true,
    }
}

/// Tasks that an archive pass picks.
pub open spec fn archive_pred(b: Option<Seq<char>>) -> spec_fn(TaskView) -> bool {
    |t: TaskView| archivable(t, b)
}

fn archive_done(tasks: &mut Vec<Task>, branch: Option<&str>) -> (r: usize)
    ensures
        ({
            let before = task_views(old(tasks)@);
            let after = task_views(final(tasks)@);
            let b = match branch {
                Some(x) => Some(x@),
                None => None,
            };
            &&& after.len() == before.len()
            &&& r == before.filter(archive_pred(b)).len()
            &&& forall|i: int|
                0 <= i < before.len() ==> #[trigger] after[i] == if archivable(before[i], b) {
                    TaskView { archived: true, ..before[i] }
                } else {
                    before[i]
                }
        }),
{
    let ghost before = task_views(tasks@);
    let ghost b = match branch {
        Some(x) => Some(x@),
        None => None,
    };
    let mut count: usize = 0;
    let mut i: usize = 0;
    while i < tasks.len()
        invariant
            i <= tasks.len(),
            tasks@.len() == before.len(),
            b == match branch {
                Some(x) => Some(x@),
                None => None::<Seq<char>>,
            },
            count == before.take(i as int).filter(archive_pred(b)).len(),
            count <= i,
            forall|k: int|
                0 <= k < i ==> #[trigger] tasks@[k]@ == if archivable(before[k], b) {
                    TaskView { archived: true, ..before[k] }
                } else {
                    before[k]
                },
            forall|k: int| i <= k < tasks@.len() ==> #[trigger] tasks@[k]@ == before[k],
        decreases tasks.len() - i,
    {
        proof {
            assert(before.take(i + 1) =~= before.take(i as int).push(before[i as int]));
            before.take(i as int).lemma_filter_push(before[i as int], archive_pred(b));
            assert(tasks@[i as int]@ == before[i as int]);
        }
        let in_b = match branch {
            Some(x) => eq_ignore_case(tasks[i].branch.as_str(), x),
            None => true,
        };
        if in_b && tasks[i].done && !tasks[i].archived {
            let mut t = tasks[i].copy();
            t.archived = true;
            tasks.set(i, t);
            count += 1;
        }
        i = i + 1;
    }
    assert(before.take(i as int) =~= before);
    count
}

/// Archives the done tasks of a branch; returns how many.
pub fn archive_done_branch(tasks: &mut Vec<Task>, branch: &str) -> (r: usize)
    ensures
        ({
            let before = task_views(old(tasks)@);
            let after = task_views(final(tasks)@);
            &&& after.len() == before.len()
            &&& r == before.filter(archive_pred(Some(branch@))).len()
            &&& forall|i: int|
                0 <= i < before.len() ==> #[trigger] after[i] == if archivable(before[i], Some(branch@)) {
                    TaskView { archived: true, ..before[i] }
                } else {
                    before[i]
                }
        }),
{
    archive_done(tasks, Some(branch))
}

/// Archives the done tasks of every branch; returns how many.
pub fn archive_done_all(tasks: &mut Vec<Task>) -> (r: usize)
    ensures
        ({
            let before = task_views(old(tasks)@);
            let after = task_views(final(tasks)@);
            &&& after.len() == before.len()
            &&& r == before.filter(archive_pred(None)).len()
            &&& forall|i: int|
                0 <= i < before.len() ==> #[trigger] after[i] == if archivable(before[i], None) {
                    TaskView { archived: true, ..before[i] }
                } else {
                    before[i]
                }
        }),
{
    archive_done(tasks, None)
}

/// Whether a task shows: archived tasks only when asked for.
pub fn filter_archived(task: &Task, include_archived: bool) -> (r: bool)
    ensures
        r == (include_archived || !task.archived),
{
    if include_archived {
        true
    } else {
        !task.archived
    }
}

/// The sort direction: `--asc` wins over `--desc`, which wins over the default.
pub fn resolve_desc(desc: bool, asc: bool, default_desc: bool) -> (r: bool)
    ensures
        r == (!asc && (desc || default_desc)),
{
    if asc {
        return false;
    }
    if desc {
        return true;
    }
    default_desc
}

/// Sets each setting that is given; returns whether any was.
pub fn update_config(
    config: &mut AppConfig,
    default_sort: Option<SortKey>,
    default_desc: Option<bool>,
    color: Option<bool>,
    reminder_days: Option<u32>,
    id_scope: Option<IdScope>,
    use_uuid: Option<bool>,
) -> (r: bool)
    ensures
        r == (default_sort is Some || default_desc is Some || color is Some || reminder_days is Some
            || id_scope is Some || use_uuid is Some),
        final(config).default_sort == match default_sort {
            Some(x) => x,
            None => old(config).default_sort,
        },
        final(config).default_desc == match default_desc {
            Some(x) => x,
            None => old(config).default_desc,
        },
        final(config).color == match color {
            Some(x) => x,
            None => old(config).color,
        },
        final(config).reminder_days == match reminder_days {
            Some(x) => x,
            None => old(config).reminder_days,
        },
        final(config).id_scope == match id_scope {
            Some(x) => x,
            None => old(config).id_scope,
        },
        final(config).use_uuid == match use_uuid {
            Some(x) => x,
            None => old(config).use_uuid,
        },
{
    let mut changed = false;
    if let Some(v) = default_sort {
        config.default_sort = v;
        changed = true;
    }
    if let Some(v) = default_desc {
        config.default_desc = v;
        changed = true;
    }
    if let Some(v) = color {
        config.color = v;
        changed = true;
    }
    if let Some(v) = reminder_days {
        config.reminder_days = v;
        changed = true;
    }
    if let Some(v) = id_scope {
        config.id_scope = v;
        changed = true;
    }
    if let Some(v) = use_uuid {
        config.use_uuid = v;
        changed = true;
    }
    changed
}

/// Creates a task in `branch` (trimmed), or in `current` where none is given, with the next
/// free id; returns the id. A blank title is refused and nothing changes.
pub fn create_task(
    tasks: &mut Vec<Task>,
    title: String,
    content: Option<String>,
    tags: &[String],
    due: Option<Date>,
    priority: Option<Priority>,
    repeat: Option<Repeat>,
    branch: Option<String>,
    current: &str,
    config: &AppConfig,
    clock: &Clock,
) -> (r: Option<u64>)
    requires
        id_room(task_views(old(tasks)@)),
    ensures
        trim_of(title@).len() == 0 ==> r is None && final(tasks)@ == old(tasks)@,
        trim_of(title@).len() != 0 ==> (r matches Some(id) && ({
            let before = task_views(old(tasks)@);
            let after = task_views(final(tasks)@);
            let b = match branch_norm(opt_text(branch)) {
                Some(x) => x,
                None => current@,
            };
            let t = after.last();
            let r = id;
            &&& after.len() == before.len() + 1
            &&& after.drop_last() == before
            &&& r == max_id(before, config.id_scope, b) + 1
            &&& t == TaskView {
                id: r,
                uid: t.uid,
                title: title@,
                content: opt_text(content),
                tags: sorted_set(tag_set(texts(tags@))),
                due,
                priority,
                repeat,
                branch: b,
                archived: false,
                done: false,
                created_at: clock.timestamp@,
            }
            &&& (t.uid is Some <==> config.use_uuid)
        })),
{
    let title_trim = crate::text::trim_text(title.as_str());
    if title_trim.unicode_len() == 0 {
        return None;
    }
    let b = match normalize_branch(branch) {
        Some(x) => x,
        None => String::from_str(current),
    };
    proof {
        lemma_room_ids(tasks@);
        lemma_max_id(task_views(tasks@), config.id_scope, b@, ID_LIMIT - 1);
    }
    let id = next_task_id(tasks.as_slice(), config.id_scope, Some(b.as_str()));
    let uid = if config.use_uuid {
        Some(new_uid())
    } else {
        None
    };
    let ghost before = task_views(tasks@);
    let t = Task {
        id,
        uid,
        title,
        content,
        tags: normalize_tags(tags),
        due,
        priority,
        repeat,
        branch: b,
        archived: false,
        done: false,
        created_at: clock.timestamp.clone(),
    };
    tasks.push(t);
    assert(task_views(tasks@).drop_last() =~= before);
    Some(id)
}

/// The changes of a single-task edit.
pub struct EditOpts {
    pub title: Option<String>,
    pub content: Option<String>,
    pub tags: Vec<String>,
    pub remove_tags: Vec<String>,
    pub due: Option<String>,
    pub priority: Option<Priority>,
    pub repeat: Option<Repeat>,
    pub clear_content: bool,
    pub clear_tags: bool,
    pub clear_due: bool,
    pub clear_priority: bool,
    pub clear_repeat: bool,
    pub branch: Option<String>,
}

impl EditOpts {
    /// The edit asks for nothing, so the task is edited interactively.
    pub open spec fn asks_nothing(self) -> bool {
        &&& self.title is None
        &&& self.content is None
        &&& self.tags@.len() == 0
        &&& self.remove_tags@.len() == 0
        &&& !self.clear_tags
        &&& self.due is None
        &&& self.priority is None
        &&& self.repeat is None
        &&& !self.clear_content
        &&& !self.clear_due
        &&& !self.clear_priority
        &&& !self.clear_repeat
        &&& self.branch is None
    }

    /// An edit that asks for nothing.
    pub fn nothing() -> (r: EditOpts)
        ensures
            r.asks_nothing(),
    {
        EditOpts {
            title: None,
            content: None,
            tags: Vec::new(),
            remove_tags: Vec::new(),
            due: None,
            priority: None,
            repeat: None,
            clear_content: false,
            clear_tags: false,
            clear_due: false,
            clear_priority: false,
            clear_repeat: false,
            branch: None,
        }
    }

    /// Whether the edit asks for nothing.
    pub fn is_empty(&self) -> (r: bool)
        ensures
            r == self.asks_nothing(),
    {
        self.title.is_none() && self.content.is_none() && self.tags.len() == 0
            && self.remove_tags.len() == 0 && !self.clear_tags && self.due.is_none()
            && self.priority.is_none() && self.repeat.is_none() && !self.clear_content
            && !self.clear_due && !self.clear_priority && !self.clear_repeat && self.branch.is_none()
    }
}

/// A task after a single-task edit with due date `due` read from the edit's text: clears win
/// over new values, and the tags are always re-sorted. The branch is handled by `rebranched`.
pub open spec fn edit_applied(t: TaskView, o: EditOpts, due: Option<Date>) -> TaskView {
    TaskView {
        title: match o.title {
            Some(x) => x@,
            None => t.title,
        },
        content: if o.clear_content {
            None
        } else if o.content is Some {
            opt_text(o.content)
        } else {
            t.content
        },
        tags: if o.clear_tags {
            Seq::empty()
        } else {
            tags_changed(t.tags, texts(o.tags@), texts(o.remove_tags@))
        },
        due: if o.clear_due {
            None
        } else if due is Some {
            due
        } else {
            t.due
        },
        priority: if o.clear_priority {
            None
        } else if o.priority is Some {
            o.priority
        } else {
            t.priority
        },
        repeat: if o.clear_repeat {
            None
        } else if o.repeat is Some {
            o.repeat
        } else {
            t.repeat
        },
        ..t
    }
}

/// A task moved to branch `nb`, where one is given. Under branch-scoped ids, a move to another
/// branch (ignoring ASCII case) takes that branch's next free id in `all`.
pub open spec fn rebranched(t: TaskView, nb: Option<Seq<char>>, scope: IdScope, all: Seq<TaskView>) -> TaskView {
    match nb {
        None => t,
        Some(b) => if scope == IdScope::Branch && !same_text(t.branch, b) {
            TaskView { branch: b, id: (max_id(all, scope, b) + 1) as u64, ..t }
        } else {
            TaskView { branch: b, ..t }
        },
    }
}

/// Why a single-task edit is refused.
#[derive(Clone, Debug, PartialEq, Eq)]
pub enum EditError {
    /// The new title is blank.
    BlankTitle,
    /// The new due date does not read; the message says why.
    BadDue(String),
}

/// The title an edit sets is blank.
pub open spec fn blank_title(o: EditOpts) -> bool {
    o.title is Some && trim_of(o.title->0@).len() == 0
}

fn apply_edit(t: &mut Task, opts: EditOpts, due: Option<Date>)
    ensures
        final(t)@ == edit_applied(old(t)@, opts, due),
{
    let EditOpts {
        title,
        content,
        tags,
        remove_tags,
        due: _,
        priority,
        repeat,
        clear_content,
        clear_tags,
        clear_due,
        clear_priority,
        clear_repeat,
        branch: _,
    } = opts;
    match title {
        Some(x) => {
            t.title = x;
        },
        None => {},
    }
    if clear_content {
        t.content = None;
    } else {
        match content {
            Some(c) => {
                t.content = Some(c);
            },
            None => {},
        }
    }
    if clear_tags {
        t.tags = Vec::new();
        assert(texts(t.tags@) =~= Seq::<Seq<char>>::empty());
    } else {
        apply_tag_changes(&mut t.tags, tags.as_slice(), remove_tags.as_slice());
    }
    if clear_due {
        t.due = None;
    } else if due.is_some() {
        t.due = due;
    }
    if clear_priority {
        t.priority = None;
    } else if priority.is_some() {
        t.priority = priority;
    }
    if clear_repeat {
        t.repeat = None;
    } else if repeat.is_some() {
        t.repeat = repeat;
    }
}

fn rebranch(t: &mut Task, nb: Option<String>, scope: IdScope, tasks: &[Task])
    requires
        id_room(task_views(tasks@)),
    ensures
        final(t)@ == rebranched(old(t)@, opt_text(nb), scope, task_views(tasks@)),
{
    match nb {
        Some(b) => {
            if scope == IdScope::Branch && !eq_ignore_case(t.branch.as_str(), b.as_str()) {
                proof {
                    lemma_room_ids(tasks@);
                    lemma_max_id(task_views(tasks@), scope, b@, ID_LIMIT - 1);
                }
                t.id = next_task_id(tasks, scope, Some(b.as_str()));
            }
            t.branch = b;
        },
        None => {},
    }
}

/// Edits the first task with id `id`. Returns `Ok(false)` where there is none; the blank-title
/// error, or the due-date error where the new due date does not read, changing nothing; and
/// `Ok(true)` otherwise.
pub fn edit_by_id(tasks: &mut Vec<Task>, id: u64, opts: EditOpts, scope: IdScope, today: Date) -> (r:
    Result<bool, EditError>)
    requires
        today.wf(),
        id_room(task_views(old(tasks)@)),
    ensures
        ({
            let before = task_views(old(tasks)@);
            let after = task_views(final(tasks)@);
            let parsed = if !opts.clear_due && opts.due is Some {
                Some(due_from_key(lower_of(trim_of(opts.due->0@)), today))
            } else {
                None
            };
            let nb = branch_norm(opt_text(opts.branch));
            match first_with_id(before, id) {
                None => r == Ok::<bool, EditError>(false) && after == before,
                Some(k) => if blank_title(opts) {
                    r == Err::<bool, EditError>(EditError::BlankTitle) && after == before
                } else {
                    match parsed {
                        Some(Err(e)) => r matches Err(EditError::BadDue(m)) && m@ == e && after == before,
                        Some(Ok(d)) => r == Ok::<bool, EditError>(true) && after == before.update(
                            k,
                            rebranched(edit_applied(before[k], opts, Some(d)), nb, scope, before),
                        ),
                        None => r == Ok::<bool, EditError>(true) && after == before.update(
                            k,
                            rebranched(edit_applied(before[k], opts, None), nb, scope, before),
                        ),
                    }
                },
            }
        }),
{
    let ghost before = task_views(tasks@);
    let ghost o = opts;
    let pos = match find_task(tasks.as_slice(), id) {
        None => {
            return Ok(false);
        },
        Some(p) => p,
    };
    if let Some(t) = &opts.title {
        let tt = crate::text::trim_text(t.as_str());
        if tt.unicode_len() == 0 {
            return Err(EditError::BlankTitle);
        }
    }
    let mut due: Option<Date> = None;
    if !opts.clear_due {
        match &opts.due {
            Some(text) => match parse_due(text.as_str(), today) {
                Ok(d) => {
                    due = Some(d);
                },
                Err(e) => {
                    return Err(EditError::BadDue(e));
                },
            },
            None => {},
        }
    }
    let nb = normalize_branch(copy_text(&opts.branch));
    let mut t = tasks[pos].copy();
    apply_edit(&mut t, opts, due);
    rebranch(&mut t, nb, scope, tasks.as_slice());
    tasks.set(pos, t);
    assert(task_views(tasks@) =~= before.update(pos as int, t@));
    Ok(true)
}

/// Points the current branch at `to` when it was `from` (ignoring ASCII case); returns whether
/// it moved.
pub fn follow_branch(current: &mut String, from: &str, to: &str) -> (r: bool)
    ensures
        r == same_text(old(current)@, from@),
        final(current)@ == if r {
            to@
        } else {
            old(current)@
        },
{
    if eq_ignore_case(current.as_str(), from) {
        *current = String::from_str(to);
        true
    } else {
        false
    }
}

/// Changes to the user's profile, each optional.
pub struct ProfileChanges {
    pub name: Option<String>,
    pub clear_name: bool,
    pub message: Option<String>,
    pub clear_message: bool,
    pub daily_greeting: Option<bool>,
    pub day_start_hour: Option<u8>,
    pub greeting_style: Option<GreetingStyle>,
    pub greeting_summary: Option<bool>,
    pub summary_scope: Option<SummaryScope>,
    pub encouragement: Option<EncouragementMode>,
    pub pronouns: Option<String>,
    pub clear_pronouns: bool,
    pub list_view: Option<ListViewStyle>,
    pub columns: Vec<ListColumn>,
    pub columns_default: bool,
    pub auto_pager: Option<bool>,
    pub reset_greeting: bool,
}

/// A free-text setting: trimmed, or nothing when blank.
pub open spec fn text_setting(s: Seq<char>) -> Option<Seq<char>> {
    if trim_of(s).len() == 0 {
        None
    } else {
        Some(trim_of(s))
    }
}

/// A text setting after a change: a new value wins over clearing it.
pub open spec fn text_after(old: Option<Seq<char>>, new: Option<String>, clear: bool) -> Option<Seq<char>> {
    match new {
        Some(s) => text_setting(s@),
        None => if clear {
            None
        } else {
            old
        },
    }
}

/// The columns without repeats, each where it first occurs.
pub open spec fn first_occurrences(s: Seq<ListColumn>) -> Seq<ListColumn>
    decreases s.len(),
{
    if s.len() == 0 {
        s
    } else {
        let d = first_occurrences(s.drop_last());
        if d.contains(s.last()) {
            d
        } else {
            d.push(s.last())
        }
    }
}

/// The value of an optional setting after a change.
pub open spec fn or_old<T>(new: Option<T>, old: T) -> T {
    match new {
        Some(x) => x,
        None => old,
    }
}

/// The change asks for something.
pub open spec fn asks_change(c: ProfileChanges) -> bool {
    c.name is Some || c.clear_name || c.message is Some || c.clear_message || c.daily_greeting is Some
        || c.day_start_hour is Some || c.greeting_style is Some || c.greeting_summary is Some
        || c.summary_scope is Some || c.encouragement is Some || c.pronouns is Some
        || c.clear_pronouns || c.list_view is Some || c.columns_default || c.columns@.len() > 0
        || c.auto_pager is Some || c.reset_greeting
}

fn text_or_none(s: String) -> (r: Option<String>)
    ensures
        opt_text(r) == text_setting(s@),
{
    let t = crate::text::trim_text(s.as_str());
    if t.unicode_len() == 0 {
        None
    } else {
        Some(t)
    }
}

fn asks_for_change(c: &ProfileChanges) -> (r: bool)
    ensures
        r == asks_change(*c),
{
    c.name.is_some() || c.clear_name || c.message.is_some() || c.clear_message
        || c.daily_greeting.is_some() || c.day_start_hour.is_some() || c.greeting_style.is_some()
        || c.greeting_summary.is_some() || c.summary_scope.is_some() || c.encouragement.is_some()
        || c.pronouns.is_some() || c.clear_pronouns || c.list_view.is_some() || c.columns_default
        || c.columns.len() > 0 || c.auto_pager.is_some() || c.reset_greeting
}

fn set_flags(p: &mut UserProfile, daily: &Option<bool>, summary: &Option<bool>, pager: &Option<bool>)
    ensures
        *final(p) == (UserProfile {
            daily_greeting: or_old(*daily, old(p).daily_greeting),
            greeting_summary: or_old(*summary, old(p).greeting_summary),
            auto_pager: or_old(*pager, old(p).auto_pager),
            ..*old(p)
        }),
{
    if let Some(x) = *daily {
        p.daily_greeting = x;
    }
    if let Some(x) = *summary {
        p.greeting_summary = x;
    }
    if let Some(x) = *pager {
        p.auto_pager = x;
    }
}

fn set_choices(
    p: &mut UserProfile,
    hour: Option<u8>,
    style: Option<GreetingStyle>,
    scope: Option<SummaryScope>,
    mode: Option<EncouragementMode>,
    view: Option<ListViewStyle>,
)
    ensures
        *final(p) == (UserProfile {
            day_start_hour: or_old(hour, old(p).day_start_hour),
            greeting_style: or_old(style, old(p).greeting_style),
            summary_scope: or_old(scope, old(p).summary_scope),
            encouragement_mode: or_old(mode, old(p).encouragement_mode),
            list_view: or_old(view, old(p).list_view),
            ..*old(p)
        }),
{
    if let Some(x) = hour {
        p.day_start_hour = x;
    }
    if let Some(x) = style {
        p.greeting_style = x;
    }
    if let Some(x) = scope {
        p.summary_scope = x;
    }
    if let Some(x) = mode {
        p.encouragement_mode = x;
    }
    if let Some(x) = view {
        p.list_view = x;
    }
}

fn text_change(old: Option<String>, new: Option<String>, clear: bool) -> (r: Option<String>)
    ensures
        opt_text(r) == text_after(opt_text(old), new, clear),
{
    match new {
        Some(n) => text_or_none(n),
        None => if clear {
            None
        } else {
            old
        },
    }
}

fn unique_columns(columns: &Vec<ListColumn>) -> (r: Vec<ListColumn>)
    ensures
        r@ == first_occurrences(columns@),
{
    let mut unique: Vec<ListColumn> = Vec::new();
    let mut i: usize = 0;
    while i < columns.len()
        invariant
            i <= columns@.len(),
            unique@ == first_occurrences(columns@.take(i as int)),
        decreases columns.len() - i,
    {
        assert(columns@.take(i + 1).drop_last() =~= columns@.take(i as int));
        let col = columns[i];
        let mut seen = false;
        let mut j: usize = 0;
        while j < unique.len()
            invariant
                j <= unique@.len(),
                seen == exists|k: int| 0 <= k < j && unique@[k] == col,
            decreases unique.len() - j,
        {
            if unique[j] == col {
                seen = true;
            }
            j = j + 1;
        }
        if !seen {
            unique.push(col);
        }
        i = i + 1;
    }
    assert(columns@.take(i as int) =~= columns@);
    unique
}

/// Applies profile changes. An hour past 23 is refused and nothing changes; otherwise returns
/// whether anything was asked for.
pub fn apply_profile_changes(profile: &mut UserProfile, changes: ProfileChanges) -> (r: Result<bool, String>)
    ensures
        (changes.day_start_hour matches Some(h) && h > 23) ==> (r is Err && *final(profile) == *old(
            profile,
        )),
        !(changes.day_start_hour matches Some(h) && h > 23) ==> ({
            let p = *old(profile);
            let q = *final(profile);
            &&& r == Ok::<bool, String>(asks_change(changes))
            &&& opt_text(q.name) == text_after(opt_text(p.name), changes.name, changes.clear_name)
            &&& opt_text(q.daily_message) == text_after(opt_text(p.daily_message), changes.message, changes.clear_message)
            &&& opt_text(q.pronouns) == text_after(opt_text(p.pronouns), changes.pronouns, changes.clear_pronouns)
            &&& q.daily_greeting == or_old(changes.daily_greeting, p.daily_greeting)
            &&& q.day_start_hour == or_old(changes.day_start_hour, p.day_start_hour)
            &&& q.greeting_style == or_old(changes.greeting_style, p.greeting_style)
            &&& q.greeting_summary == or_old(changes.greeting_summary, p.greeting_summary)
            &&& q.summary_scope == or_old(changes.summary_scope, p.summary_scope)
            &&& q.encouragement_mode == or_old(changes.encouragement, p.encouragement_mode)
            &&& q.list_view == or_old(changes.list_view, p.list_view)
            &&& q.auto_pager == or_old(changes.auto_pager, p.auto_pager)
            &&& q.list_columns@ == if changes.columns_default {
                seq![ListColumn::Due, ListColumn::Priority]
            } else if changes.columns@.len() > 0 {
                first_occurrences(changes.columns@)
            } else {
                p.list_columns@
            }
            &&& q.last_greeted == if changes.reset_greeting {
                None
            } else {
                p.last_greeted
            }
            &&& q.saved_commands == p.saved_commands
        }),
{
    if let Some(h) = changes.day_start_hour {
        if h > 23 {
            return Err(String::from_str("day-start-hour must be between 0 and 23"));
        }
    }
    let changed = asks_for_change(&changes);
    profile.name = text_change(copy_text(&profile.name), changes.name, changes.clear_name);
    profile.daily_message = text_change(
        copy_text(&profile.daily_message),
        changes.message,
        changes.clear_message,
    );
    profile.pronouns = text_change(copy_text(&profile.pronouns), changes.pronouns, changes.clear_pronouns);
    set_flags(profile, &changes.daily_greeting, &changes.greeting_summary, &changes.auto_pager);
    set_choices(
        profile,
        changes.day_start_hour,
        changes.greeting_style,
        changes.summary_scope,
        changes.encouragement,
        changes.list_view,
    );
    if changes.columns_default {
        profile.list_columns = default_list_columns();
    } else if changes.columns.len() > 0 {
        profile.list_columns = unique_columns(&changes.columns);
    }
    if changes.reset_greeting {
        profile.last_greeted = None;
    }
    Ok(changed)
}

} // verus!
