//! Queries over the task list and the operations that rewrite many tasks at once.

use vstd::prelude::*;

use crate::date::{advance_due, can_advance, due_from_key, is_advance, parse_due, Clock, Date};
use crate::model::{all_wf, copy_texts, default_branch_name, task_views, IdScope, Priority, Repeat, Task, TaskView};
use crate::text::{
    contains, contains_text, eq_ignore_case, lower_of, lowercase, normalize_tags, opt_text, same_text,
    sort_dedup, sorted_set, tag_set, texts, trim_of,
};

verus! {

/// Ids stay below this bound, and so do list lengths, so that fresh ids never overflow.
pub const ID_LIMIT: u64 = 0x8000_0000_0000_0000;

/// Every id and the list's length are below `ID_LIMIT`.
pub open spec fn id_room(tasks: Seq<TaskView>) -> bool {
    &&& tasks.len() < ID_LIMIT
    &&& forall|i: int| 0 <= i < tasks.len() ==> (#[trigger] tasks[i]).id < ID_LIMIT
}

/// Whether every id and the list's length leave room for fresh ids.
pub fn ids_in_range(tasks: &Vec<Task>) -> (r: bool)
    ensures
        r == id_room(task_views(tasks@)),
{
    if tasks.len() as u64 >= ID_LIMIT {
        return false;
    }
    let mut i: usize = 0;
    while i < tasks.len()
        invariant
            i <= tasks.len(),
            forall|k: int| 0 <= k < i ==> (#[trigger] tasks@[k]).id < ID_LIMIT,
        decreases tasks.len() - i,
    {
        if tasks[i].id >= ID_LIMIT {
            assert(task_views(tasks@)[i as int].id == tasks@[i as int].id);
            return false;
        }
        i = i + 1;
    }
    true
}

/// Ids within the bound are below the largest `u64`.
pub proof fn lemma_room_ids(tasks: Seq<Task>)
    requires
        id_room(task_views(tasks)),
    ensures
        forall|i: int| 0 <= i < tasks.len() ==> (#[trigger] tasks[i]).id < u64::MAX,
{
    assert forall|i: int| 0 <= i < tasks.len() implies (#[trigger] tasks[i]).id < u64::MAX by {
        assert(task_views(tasks)[i].id == tasks[i].id);
    }
}

/// The task belongs to branch `b`, ignoring ASCII case.
pub open spec fn in_branch(t: TaskView, b: Seq<char>) -> bool {
    same_text(t.branch, b)
}

/// The lower-case query `q` occurs in the lower-cased title or content.
pub open spec fn text_match(t: TaskView, q: Seq<char>) -> bool {
    contains_text(lower_of(t.title), q) || (t.content matches Some(c) && contains_text(
        lower_of(c),
        q,
    ))
}

/// The tasks that a bulk operation with query `q` in branch `b` acts on: in the branch,
/// not archived, and matching the query in any case.
pub open spec fn picked(t: TaskView, q: Seq<char>, b: Seq<char>) -> bool {
    in_branch(t, b) && !t.archived && text_match(t, lower_of(q))
}

/// Whether the lower-case `query` occurs in the task's lower-cased title or content.
pub fn task_matches(task: &Task, query: &str) -> (r: bool)
    ensures
        r == text_match(task@, query@),
{
    let title = lowercase(task.title.as_str());
    if contains(title.as_str(), query) {
        return true;
    }
    match &task.content {
        Some(c) => {
            let lc = lowercase(c.as_str());
            contains(lc.as_str(), query)
        },
        None => false,
    }
}

/// The task carries one of `tags` (ignoring ASCII case), or `tags` is empty.
pub open spec fn has_any_tag(t: TaskView, tags: Seq<Seq<char>>) -> bool {
    tags.len() == 0 || exists|i: int, j: int|
        0 <= i < tags.len() && 0 <= j < t.tags.len() && same_text(
            #[trigger] t.tags[j],
            #[trigger] tags[i],
        )
}

/// Whether the task carries one of `tags`, ignoring ASCII case; an empty list matches all.
pub fn tags_match(task: &Task, tags: &[String]) -> (r: bool)
    ensures
        r == has_any_tag(task@, texts(tags@)),
{
    if tags.len() == 0 {
        return true;
    }
    let mut i: usize = 0;
    while i < tags.len()
        invariant
            i <= tags.len(),
            forall|a: int, b: int|
                0 <= a < i && 0 <= b < task.tags@.len() ==> !same_text(
                    #[trigger] task.tags@[b]@,
                    #[trigger] tags@[a]@,
                ),
        decreases tags.len() - i,
    {
        let mut j: usize = 0;
        while j < task.tags.len()
            invariant
                i < tags.len(),
                j <= task.tags.len(),
                forall|a: int, b: int|
                    0 <= a < i && 0 <= b < task.tags@.len() ==> !same_text(
                        #[trigger] task.tags@[b]@,
                        #[trigger] tags@[a]@,
                    ),
                forall|b: int| 0 <= b < j ==> !same_text(#[trigger] task.tags@[b]@, tags@[i as int]@),
            decreases task.tags.len() - j,
        {
            if eq_ignore_case(task.tags[j].as_str(), tags[i].as_str()) {
                let ghost tv = task@;
                let ghost qs = texts(tags@);
                assert(tv.tags[j as int] == task.tags@[j as int]@);
                assert(qs[i as int] == tags@[i as int]@);
                assert(same_text(tv.tags[j as int], qs[i as int]));
                assert(has_any_tag(tv, qs));
                return true;
            }
            j = j + 1;
        }
        i = i + 1;
    }
    assert forall|a: int, b: int|
        0 <= a < texts(tags@).len() && 0 <= b < texts(task.tags@).len() implies !same_text(
        #[trigger] texts(task.tags@)[b],
        #[trigger] texts(tags@)[a],
    ) by {
        assert(!same_text(task.tags@[b]@, tags@[a]@));
    }
    false
}

/// Ids count within the whole list, or within branch `b`.
pub open spec fn scoped(t: TaskView, scope: IdScope, b: Seq<char>) -> bool {
    scope == IdScope::Global || in_branch(t, b)
}

/// The largest id in scope, or 0 where there is none.
pub open spec fn max_id(tasks: Seq<TaskView>, scope: IdScope, b: Seq<char>) -> int
    decreases tasks.len(),
{
    if tasks.len() == 0 {
        0
    } else {
        let m = max_id(tasks.drop_last(), scope, b);
        let t = tasks.last();
        if scoped(t, scope, b) && t.id > m {
            t.id as int
        } else {
            m
        }
    }
}

/// No id in scope exceeds `max_id`, and `max_id` stays under any bound on all ids.
pub proof fn lemma_max_id(tasks: Seq<TaskView>, scope: IdScope, b: Seq<char>, bound: int)
    requires
        bound >= 0,
        forall|i: int| 0 <= i < tasks.len() ==> (#[trigger] tasks[i]).id <= bound,
    ensures
        0 <= max_id(tasks, scope, b) <= bound,
        forall|i: int|
            0 <= i < tasks.len() && scoped(#[trigger] tasks[i], scope, b) ==> tasks[i].id <= max_id(
                tasks,
                scope,
                b,
            ),
    decreases tasks.len(),
{
    if tasks.len() > 0 {
        let init = tasks.drop_last();
        assert forall|i: int| 0 <= i < init.len() implies (#[trigger] init[i]).id <= bound by {
            assert(init[i] == tasks[i]);
        }
        lemma_max_id(init, scope, b, bound);
        assert forall|i: int|
            0 <= i < tasks.len() && scoped(#[trigger] tasks[i], scope, b) implies tasks[i].id
            <= max_id(tasks, scope, b) by {
            if i < tasks.len() - 1 {
                assert(init[i] == tasks[i]);
            }
        }
    }
}

/// `max_id` reads only ids and branches.
pub proof fn lemma_max_id_same(a: Seq<TaskView>, b: Seq<TaskView>, scope: IdScope, br: Seq<char>)
    requires
        a.len() == b.len(),
        forall|k: int| 0 <= k < a.len() ==> (#[trigger] a[k]).id == b[k].id && a[k].branch == b[k].branch,
    ensures
        max_id(a, scope, br) == max_id(b, scope, br),
    decreases a.len(),
{
    if a.len() > 0 {
        let (x, y) = (a.drop_last(), b.drop_last());
        assert forall|k: int| 0 <= k < x.len() implies (#[trigger] x[k]).id == y[k].id && x[k].branch == y[k].branch by {
            assert(x[k] == a[k] && y[k] == b[k]);
        }
        lemma_max_id_same(x, y, scope, br);
    }
}

/// The branch that an absent branch argument stands for.
pub open spec fn branch_or_default(branch: Option<&str>) -> Seq<char> {
    match branch {
        Some(b) => b@,
        None => default_branch_name(),
    }
}

/// The next free id: one more than the largest id in the whole list, or in the branch
/// (the default branch where none is given), by `scope`.
pub fn next_task_id(tasks: &[Task], scope: IdScope, branch: Option<&str>) -> (r: u64)
    requires
        forall|i: int| 0 <= i < tasks@.len() ==> (#[trigger] tasks@[i]).id < u64::MAX,
    ensures
        r == max_id(task_views(tasks@), scope, branch_or_default(branch)) + 1,
{
    let ghost views = task_views(tasks@);
    let b = match branch {
        Some(s) => s,
        None => crate::model::DEFAULT_BRANCH,
    };
    proof {
        reveal_strlit("personal");
    }
    assert(b@ == branch_or_default(branch));
    let mut m: u64 = 0;
    let mut i: usize = 0;
    while i < tasks.len()
        invariant
            i <= tasks.len(),
            views == task_views(tasks@),
            forall|k: int| 0 <= k < tasks@.len() ==> (#[trigger] tasks@[k]).id < u64::MAX,
            b@ == branch_or_default(branch),
            m == max_id(views.take(i as int), scope, b@),
            m < u64::MAX,
        decreases tasks.len() - i,
    {
        assert(views.take(i + 1).drop_last() =~= views.take(i as int));
        let t = &tasks[i];
        let counts = match scope {
            IdScope::Global => true,
            IdScope::Branch => eq_ignore_case(t.branch.as_str(), b),
        };
        if counts && t.id > m {
            m = t.id;
        }
        assert(views[i as int] == t@);
        i = i + 1;
    }
    assert(views.take(i as int) =~= views);
    m + 1
}

/// The task marked done.
pub open spec fn done_view(t: TaskView) -> TaskView {
    TaskView { done: true, ..t }
}

/// The date a repeat advances from: the task's due date, or today.
pub open spec fn spawn_base(t: TaskView, today: Date) -> Date {
    match t.due {
        Some(d) => d,
        None => today,
    }
}

/// Marking `t` done creates a successor: it is open, repeats, and its date can advance.
pub open spec fn spawns(t: TaskView, today: Date) -> bool {
    !t.done && t.repeat is Some && can_advance(spawn_base(t, today), t.repeat->0)
}

/// `c` is the successor of `t`: a copy with id `id`, open, due one repeat later, stamped
/// `stamp`, and with a fresh uid, different from `t`'s, when `use_uuid` is set.
pub open spec fn is_successor(
    t: TaskView,
    c: TaskView,
    id: int,
    today: Date,
    stamp: Seq<char>,
    use_uuid: bool,
) -> bool {
    &&& c.id == id
    &&& !c.done
    &&& c.due matches Some(x) && is_advance(spawn_base(t, today), t.repeat->0, x)
    &&& c.created_at == stamp
    &&& if use_uuid {
        c.uid is Some && c.uid != t.uid
    } else {
        c.uid == t.uid
    }
    &&& c.title == t.title
    &&& c.content == t.content
    &&& c.tags == t.tags
    &&& c.priority == t.priority
    &&& c.repeat == t.repeat
    &&& c.branch == t.branch
    &&& c.archived == t.archived
}

/// Relies on `uuid::Uuid::new_v4` and its hyphenated `to_string`: a random identifier of 36
/// characters.
#[verifier::external_body]
pub(crate) fn new_uid() -> (r: String)
    ensures
        r@.len() == 36,
{
    uuid::Uuid::new_v4().to_string()
}

/// A random uid that differs from `old`: drawn again where it matches, and marked where it
/// matches twice.
pub(crate) fn fresh_uid(old: &Option<String>) -> (r: String)
    ensures
        opt_text(*old) != Some(r@),
{
    let u = new_uid();
    match old {
        Some(o) => {
            if u == *o {
                let mut v = new_uid();
                if v == *o {
                    proof {
                        reveal_strlit("-");
                    }
                    v.append("-");
                }
                v
            } else {
                u
            }
        },
        None => u,
    }
}

/// Marks an open task done. Where it repeats and its date can advance, returns the
/// successor to append, with id `*next_id`, and moves the cursor on by one.
pub fn mark_done_with_repeat(task: &mut Task, next_id: &mut u64, use_uuid: bool, clock: &Clock) -> (r:
    Option<Task>)
    requires
        *old(next_id) < u64::MAX,
        old(task)@.wf(),
        clock.today.wf(),
    ensures
        old(task)@.done ==> final(task)@ == old(task)@,
        !old(task)@.done ==> final(task)@ == done_view(old(task)@),
        r is Some <==> spawns(old(task)@, clock.today),
        r matches Some(c) ==> is_successor(
            old(task)@,
            c@,
            *old(next_id) as int,
            clock.today,
            clock.timestamp@,
            use_uuid,
        ) && *final(next_id) == *old(next_id) + 1,
        r is None ==> *final(next_id) == *old(next_id),
{
    if task.done {
        return None;
    }
    task.done = true;
    let repeat = match task.repeat {
        Some(rep) => rep,
        None => {
            return None;
        },
    };
    let base = match task.due {
        Some(d) => d,
        None => clock.today,
    };
    let next_due = match advance_due(base, repeat) {
        Some(d) => d,
        None => {
            return None;
        },
    };
    let mut copy = task.copy();
    copy.id = *next_id;
    copy.done = false;
    copy.due = Some(next_due);
    copy.created_at = clock.timestamp.clone();
    if use_uuid {
        copy.uid = Some(fresh_uid(&task.uid));
    }
    *next_id = *next_id + 1;
    Some(copy)
}

/// Tasks that a bulk pass picks.
pub open spec fn pick_pred(q: Seq<char>, b: Seq<char>) -> spec_fn(TaskView) -> bool {
    |t: TaskView| picked(t, q, b)
}

/// Picked tasks whose done flag differs from `flag`.
pub open spec fn flip_pred(q: Seq<char>, b: Seq<char>, flag: bool) -> spec_fn(TaskView) -> bool {
    |t: TaskView| picked(t, q, b) && t.done != flag
}

/// Picked tasks that leave a successor when marked done.
pub open spec fn spawn_pred(q: Seq<char>, b: Seq<char>, today: Date) -> spec_fn(TaskView) -> bool {
    |t: TaskView| picked(t, q, b) && spawns(t, today)
}

/// A task after a bulk done (`flag`) or undone pass.
pub open spec fn after_set_done(t: TaskView, q: Seq<char>, b: Seq<char>, flag: bool) -> TaskView {
    if picked(t, q, b) {
        TaskView { done: flag, ..t }
    } else {
        t
    }
}

/// The tasks whose successors a bulk done pass appends, in list order.
pub open spec fn spawn_sources(
    before: Seq<TaskView>,
    q: Seq<char>,
    b: Seq<char>,
    flag: bool,
    today: Date,
) -> Seq<TaskView> {
    if flag {
        before.filter(spawn_pred(q, b, today))
    } else {
        Seq::empty()
    }
}

/// `after` is what a bulk done/undone pass makes of `before`, and `count` is its result:
/// picked tasks take the flag, the count is the number whose flag changed, and successors
/// of repeating tasks follow the old list, with consecutive ids from the next free id.
pub open spec fn set_done_outcome(
    before: Seq<TaskView>,
    after: Seq<TaskView>,
    q: Seq<char>,
    b: Seq<char>,
    flag: bool,
    scope: IdScope,
    today: Date,
    stamp: Seq<char>,
    use_uuid: bool,
    count: int,
) -> bool {
    let src = spawn_sources(before, q, b, flag, today);
    let start = max_id(before, scope, b) + 1;
    &&& count == before.filter(flip_pred(q, b, flag)).len()
    &&& after.len() == before.len() + src.len()
    &&& forall|i: int|
        0 <= i < before.len() ==> #[trigger] after[i] == after_set_done(before[i], q, b, flag)
    &&& forall|j: int|
        0 <= j < src.len() ==> is_successor(
            src[j],
            #[trigger] after[before.len() + j],
            start + j,
            today,
            stamp,
            use_uuid,
        )
}

/// Marks done (`done`) or open every picked task. Marking done appends the successors of
/// repeating tasks after the scan. Returns how many tasks changed state.
pub fn bulk_set_done(
    tasks: &mut Vec<Task>,
    query: &str,
    branch: &str,
    done: bool,
    id_scope: IdScope,
    use_uuid: bool,
    clock: &Clock,
) -> (r: usize)
    requires
        id_room(task_views(old(tasks)@)),
        all_wf(task_views(old(tasks)@)),
        clock.today.wf(),
    ensures
        set_done_outcome(
            task_views(old(tasks)@),
            task_views(final(tasks)@),
            query@,
            branch@,
            done,
            id_scope,
            clock.today,
            clock.timestamp@,
            use_uuid,
            r as int,
        ),
{
    let ghost before = task_views(tasks@);
    let ghost qv = query@;
    let ghost bv = branch@;
    let q = lowercase(query);
    let mut count: usize = 0;
    proof {
        lemma_room_ids(tasks@);
    }
    let mut next_id = next_task_id(tasks.as_slice(), id_scope, Some(branch));
    proof {
        lemma_max_id(before, id_scope, bv, ID_LIMIT - 1);
    }
    let ghost start = next_id as int;
    let mut new_tasks: Vec<Task> = Vec::new();
    let mut i: usize = 0;
    while i < tasks.len()
        invariant
            i <= tasks.len(),
            tasks@.len() == before.len(),
            q@ == lower_of(qv),
            qv == query@,
            bv == branch@,
            id_room(before),
            all_wf(before),
            clock.today.wf(),
            start == max_id(before, id_scope, bv) + 1,
            start <= ID_LIMIT,
            forall|k: int| 0 <= k < i ==> #[trigger] tasks@[k]@ == after_set_done(before[k], qv, bv, done),
            forall|k: int| i <= k < tasks@.len() ==> #[trigger] tasks@[k]@ == before[k],
            count == before.take(i as int).filter(flip_pred(qv, bv, done)).len(),
            new_tasks@.len() == spawn_sources(before.take(i as int), qv, bv, done, clock.today).len(),
            forall|j: int|
                0 <= j < new_tasks@.len() ==> is_successor(
                    spawn_sources(before.take(i as int), qv, bv, done, clock.today)[j],
                    #[trigger] new_tasks@[j]@,
                    start + j,
                    clock.today,
                    clock.timestamp@,
                    use_uuid,
                ),
            next_id == start + new_tasks@.len(),
            new_tasks@.len() <= i,
            count <= i,
        decreases tasks.len() - i,
    {
        let ghost prev = before.take(i as int);
        let ghost t0 = before[i as int];
        proof {
            assert(before.take(i + 1) =~= prev.push(t0));
            prev.lemma_filter_push(t0, flip_pred(qv, bv, done));
            prev.lemma_filter_push(t0, spawn_pred(qv, bv, clock.today));
            assert(tasks@[i as int]@ == t0);
        }
        let in_b = eq_ignore_case(tasks[i].branch.as_str(), branch);
        if in_b && !tasks[i].archived && task_matches(&tasks[i], q.as_str()) {
            assert(picked(t0, qv, bv));
            if done {
                if !tasks[i].done {
                    let mut t = tasks[i].copy();
                    let spawned = mark_done_with_repeat(&mut t, &mut next_id, use_uuid, clock);
                    tasks.set(i, t);
                    match spawned {
                        Some(c) => {
                            new_tasks.push(c);
                        },
                        None => {},
                    }
                    count += 1;
                }
            } else if tasks[i].done {
                let mut t = tasks[i].copy();
                t.done = false;
                tasks.set(i, t);
                count += 1;
            }
        }
        i = i + 1;
    }
    proof {
        assert(before.take(i as int) =~= before);
    }
    let ghost kept = tasks@;
    let ghost added = new_tasks@;
    tasks.append(&mut new_tasks);
    proof {
        let after = task_views(tasks@);
        assert forall|j: int|
            0 <= j < spawn_sources(before, qv, bv, done, clock.today).len() implies is_successor(
            spawn_sources(before, qv, bv, done, clock.today)[j],
            #[trigger] after[before.len() + j],
            start + j,
            clock.today,
            clock.timestamp@,
            use_uuid,
        ) by {
            assert(tasks@[before.len() + j] == added[j]);
        }
        assert forall|k: int| 0 <= k < before.len() implies #[trigger] after[k] == after_set_done(
            before[k],
            qv,
            bv,
            done,
        ) by {
            assert(tasks@[k] == kept[k]);
        }
    }
    count
}

/// Tasks that a bulk delete keeps.
pub open spec fn keep_pred(q: Seq<char>, b: Seq<char>) -> spec_fn(TaskView) -> bool {
    |t: TaskView| !picked(t, q, b)
}

/// Removes every picked task and returns how many went.
pub fn bulk_delete(tasks: &mut Vec<Task>, query: &str, branch: &str) -> (r: usize)
    ensures
        task_views(final(tasks)@) == task_views(old(tasks)@).filter(keep_pred(query@, branch@)),
        r == old(tasks)@.len() - final(tasks)@.len(),
{
    let ghost before = task_views(tasks@);
    let q = lowercase(query);
    let mut kept: Vec<Task> = Vec::new();
    let mut i: usize = 0;
    while i < tasks.len()
        invariant
            i <= tasks.len(),
            before == task_views(tasks@),
            q@ == lower_of(query@),
            task_views(kept@) == before.take(i as int).filter(keep_pred(query@, branch@)),
        decreases tasks.len() - i,
    {
        let ghost prev = before.take(i as int);
        proof {
            assert(before.take(i + 1) =~= prev.push(before[i as int]));
            prev.lemma_filter_push(before[i as int], keep_pred(query@, branch@));
        }
        let t = &tasks[i];
        let hit = eq_ignore_case(t.branch.as_str(), branch) && !t.archived && task_matches(
            t,
            q.as_str(),
        );
        if !hit {
            let ghost kv = task_views(kept@);
            kept.push(t.copy());
            assert(task_views(kept@) =~= kv.push(t@));
        }
        i = i + 1;
    }
    assert(before.take(i as int) =~= before);
    let n = tasks.len();
    proof {
        before.filter(keep_pred(query@, branch@)).lemma_filter_len(keep_pred(query@, branch@));
    }
    *tasks = kept;
    assert(task_views(tasks@).len() == tasks@.len());
    n - tasks.len()
}

/// How many tasks before index `i` the predicate picks.
pub open spec fn rank(before: Seq<TaskView>, i: int, p: spec_fn(TaskView) -> bool) -> int {
    before.take(i).filter(p).len() as int
}

/// A task moved to branch `target`, renumbered to `id` under branch-scoped ids.
pub open spec fn moved(t: TaskView, target: Seq<char>, scope: IdScope, id: int) -> TaskView {
    if scope == IdScope::Branch {
        TaskView { branch: target, id: id as u64, ..t }
    } else {
        TaskView { branch: target, ..t }
    }
}

/// `after` is `before` with every task that `p` picks moved to `target`; under branch-scoped
/// ids the moved tasks are numbered in list order from the target's next free id.
pub open spec fn move_outcome(
    before: Seq<TaskView>,
    after: Seq<TaskView>,
    p: spec_fn(TaskView) -> bool,
    target: Seq<char>,
    scope: IdScope,
    count: int,
) -> bool {
    let start = max_id(before, scope, target) + 1;
    &&& after.len() == before.len()
    &&& count == before.filter(p).len()
    &&& forall|i: int|
        0 <= i < before.len() ==> #[trigger] after[i] == if p(before[i]) {
            moved(before[i], target, scope, start + rank(before, i, p))
        } else {
            before[i]
        }
}

/// Moves every picked task to branch `target`, renumbering them under branch-scoped ids.
/// Returns how many moved.
pub fn bulk_move(tasks: &mut Vec<Task>, query: &str, branch: &str, target: &str, scope: IdScope) -> (r:
    usize)
    requires
        id_room(task_views(old(tasks)@)),
    ensures
        move_outcome(
            task_views(old(tasks)@),
            task_views(final(tasks)@),
            pick_pred(query@, branch@),
            target@,
            scope,
            r as int,
        ),
{
    let ghost before = task_views(tasks@);
    let ghost p = pick_pred(query@, branch@);
    let q = lowercase(query);
    let mut count: usize = 0;
    proof {
        lemma_room_ids(tasks@);
    }
    let mut next_id = next_task_id(tasks.as_slice(), scope, Some(target));
    proof {
        lemma_max_id(before, scope, target@, ID_LIMIT - 1);
    }
    let ghost start = next_id as int;
    let mut i: usize = 0;
    while i < tasks.len()
        invariant
            i <= tasks.len(),
            tasks@.len() == before.len(),
            q@ == lower_of(query@),
            p == pick_pred(query@, branch@),
            id_room(before),
            start == max_id(before, scope, target@) + 1,
            start <= ID_LIMIT,
            count == rank(before, i as int, p),
            count <= i,
            scope == IdScope::Branch ==> next_id == start + count,
            forall|k: int|
                0 <= k < i ==> #[trigger] tasks@[k]@ == if p(before[k]) {
                    moved(before[k], target@, scope, start + rank(before, k, p))
                } else {
                    before[k]
                },
            forall|k: int| i <= k < tasks@.len() ==> #[trigger] tasks@[k]@ == before[k],
        decreases tasks.len() - i,
    {
        let ghost prev = before.take(i as int);
        proof {
            assert(before.take(i + 1) =~= prev.push(before[i as int]));
            prev.lemma_filter_push(before[i as int], p);
            assert(tasks@[i as int]@ == before[i as int]);
        }
        let hit = eq_ignore_case(tasks[i].branch.as_str(), branch) && !tasks[i].archived
            && task_matches(&tasks[i], q.as_str());
        if hit {
            let mut t = tasks[i].copy();
            t.branch = String::from_str(target);
            if scope == IdScope::Branch {
                t.id = next_id;
                next_id = next_id + 1;
            }
            tasks.set(i, t);
            count += 1;
        }
        i = i + 1;
    }
    assert(before.take(i as int) =~= before);
    count
}

/// Some string in `ts` equals `t` up to ASCII case.
pub open spec fn has_same_text(ts: Seq<Seq<char>>, t: Seq<char>) -> bool {
    exists|k: int| 0 <= k < ts.len() && same_text(#[trigger] ts[k], t)
}

/// `tags` after appending, in order, each of `add` that no tag already equals up to ASCII case.
pub open spec fn with_added(tags: Seq<Seq<char>>, add: Seq<Seq<char>>) -> Seq<Seq<char>>
    decreases add.len(),
{
    if add.len() == 0 {
        tags
    } else {
        let t = with_added(tags, add.drop_last());
        if has_same_text(t, add.last()) {
            t
        } else {
            t.push(add.last())
        }
    }
}

/// `t` equals one of `rs` up to ASCII case.
pub open spec fn removed_by(t: Seq<char>, rs: Set<Seq<char>>) -> bool {
    exists|r: Seq<char>| rs.contains(r) && same_text(t, r)
}

/// Tags that survive the removal of `rs`.
pub open spec fn survives(rs: Set<Seq<char>>) -> spec_fn(Seq<char>) -> bool {
    |t: Seq<char>| !removed_by(t, rs)
}

/// The tags after a tag edit: the normalised additions not already present (up to ASCII
/// case) are appended, tags equal to a normalised removal (up to ASCII case) are dropped,
/// and the rest is sorted without repeats.
pub open spec fn tags_changed(tags: Seq<Seq<char>>, add: Seq<Seq<char>>, remove: Seq<Seq<char>>) -> Seq<
    Seq<char>,
> {
    let grown = with_added(tags, sorted_set(tag_set(add)));
    sorted_set(grown.filter(survives(tag_set(remove))).to_set())
}

fn any_same_text(list: &Vec<String>, t: &str) -> (r: bool)
    ensures
        r == has_same_text(texts(list@), t@),
{
    let mut k: usize = 0;
    while k < list.len()
        invariant
            k <= list.len(),
            forall|j: int| 0 <= j < k ==> !same_text(#[trigger] texts(list@)[j], t@),
        decreases list.len() - k,
    {
        if eq_ignore_case(list[k].as_str(), t) {
            assert(same_text(texts(list@)[k as int], t@));
            return true;
        }
        k = k + 1;
    }
    false
}

/// Adds and removes tags, ignoring ASCII case, then sorts and drops repeats.
pub fn apply_tag_changes(tags: &mut Vec<String>, add: &[String], remove: &[String])
    ensures
        texts(final(tags)@) == tags_changed(texts(old(tags)@), texts(add@), texts(remove@)),
{
    let ghost start = texts(tags@);
    let add_n = normalize_tags(add);
    let remove_n = normalize_tags(remove);
    let ghost av = texts(add_n@);
    let mut i: usize = 0;
    while i < add_n.len()
        invariant
            i <= add_n.len(),
            av == texts(add_n@),
            texts(tags@) == with_added(start, av.take(i as int)),
        decreases add_n.len() - i,
    {
        assert(av.take(i + 1).drop_last() =~= av.take(i as int));
        if !any_same_text(tags, add_n[i].as_str()) {
            let ghost tv = texts(tags@);
            tags.push(add_n[i].clone());
            assert(texts(tags@) =~= tv.push(av[i as int]));
        }
        i = i + 1;
    }
    assert(av.take(i as int) =~= av);
    let ghost grown = texts(tags@);
    let ghost rs = tag_set(texts(remove@));
    let mut kept: Vec<String> = Vec::new();
    let mut j: usize = 0;
    while j < tags.len()
        invariant
            j <= tags.len(),
            grown == texts(tags@),
            rs == tag_set(texts(remove@)),
            texts(remove_n@).to_set() == rs,
            texts(kept@) == grown.take(j as int).filter(survives(rs)),
        decreases tags.len() - j,
    {
        let ghost prev = grown.take(j as int);
        proof {
            assert(grown.take(j + 1) =~= prev.push(grown[j as int]));
            prev.lemma_filter_push(grown[j as int], survives(rs));
        }
        let hit = any_same_text(&remove_n, tags[j].as_str());
        proof {
            let t = grown[j as int];
            let rv = texts(remove_n@);
            if hit {
                let k = choose|k: int| 0 <= k < rv.len() && same_text(rv[k], t);
                assert(rs.contains(rv[k]));
                assert(same_text(t, rv[k]));
            }
            if removed_by(t, rs) {
                let r = choose|r: Seq<char>| rs.contains(r) && same_text(t, r);
                let k = choose|k: int| 0 <= k < rv.len() && rv[k] == r;
                assert(same_text(rv[k], t));
            }
        }
        if !hit {
            let ghost kv = texts(kept@);
            kept.push(tags[j].clone());
            assert(texts(kept@) =~= kv.push(grown[j as int]));
        }
        j = j + 1;
    }
    assert(grown.take(j as int) =~= grown);
    *tags = sort_dedup(kept);
}

/// A bulk edit: new values or clears for due date, priority and repeat, and tag changes.
pub struct BulkEditOpts {
    pub due: Option<String>,
    pub priority: Option<Priority>,
    pub repeat: Option<Repeat>,
    pub clear_due: bool,
    pub clear_priority: bool,
    pub clear_repeat: bool,
    pub tags: Vec<String>,
    pub remove_tags: Vec<String>,
    pub clear_tags: bool,
}

/// The edit asks for nothing.
pub open spec fn is_noop(o: BulkEditOpts) -> bool {
    &&& o.due is None
    &&& o.priority is None
    &&& o.repeat is None
    &&& o.tags@.len() == 0
    &&& o.remove_tags@.len() == 0
    &&& !o.clear_due
    &&& !o.clear_priority
    &&& !o.clear_repeat
    &&& !o.clear_tags
}

/// A task after the edit, with `due` the parsed new due date: a clear wins over a new value,
/// and clearing tags wins over adding or removing them.
pub open spec fn edited(t: TaskView, o: BulkEditOpts, due: Option<Date>) -> TaskView {
    TaskView {
        due: if o.clear_due {
            None
        } else if due is Some {
            due
        } else {
            t.due
        },
        priority: if o.clear_priority {
            None
        } else if o.priority is Some {
            o.priority
        } else {
            t.priority
        },
        repeat: if o.clear_repeat {
            None
        } else if o.repeat is Some {
            o.repeat
        } else {
            t.repeat
        },
        tags: if o.clear_tags {
            Seq::empty()
        } else if o.tags@.len() > 0 || o.remove_tags@.len() > 0 {
            tags_changed(t.tags, texts(o.tags@), texts(o.remove_tags@))
        } else {
            t.tags
        },
        ..t
    }
}

/// Picked tasks that the edit actually changes.
pub open spec fn edit_pred(q: Seq<char>, b: Seq<char>, o: BulkEditOpts, due: Option<Date>) -> spec_fn(
    TaskView,
) -> bool {
    |t: TaskView| picked(t, q, b) && edited(t, o, due) != t
}

/// `after` is `before` with every picked task edited; `count` is how many of them changed.
pub open spec fn edit_outcome(
    before: Seq<TaskView>,
    after: Seq<TaskView>,
    q: Seq<char>,
    b: Seq<char>,
    o: BulkEditOpts,
    due: Option<Date>,
    count: int,
) -> bool {
    &&& after.len() == before.len()
    &&& count == before.filter(edit_pred(q, b, o, due)).len()
    &&& forall|i: int|
        0 <= i < before.len() ==> #[trigger] after[i] == if picked(before[i], q, b) {
            edited(before[i], o, due)
        } else {
            before[i]
        }
}

/// What a bulk edit with due text read as `parsed` does.
pub open spec fn due_edit_result(
    before: Seq<TaskView>,
    after: Seq<TaskView>,
    q: Seq<char>,
    b: Seq<char>,
    o: BulkEditOpts,
    parsed: Result<Date, Seq<char>>,
    r: Result<usize, String>,
) -> bool {
    match parsed {
        Err(e) => r matches Err(m) && m@ == e && after == before,
        Ok(d) => r matches Ok(n) && edit_outcome(before, after, q, b, o, Some(d), n as int),
    }
}

fn same_texts(a: &Vec<String>, b: &Vec<String>) -> (r: bool)
    ensures
        r == (texts(a@) == texts(b@)),
{
    if a.len() != b.len() {
        assert(texts(a@).len() != texts(b@).len());
        return false;
    }
    let mut i: usize = 0;
    while i < a.len()
        invariant
            i <= a.len(),
            a.len() == b.len(),
            forall|k: int| 0 <= k < i ==> #[trigger] a@[k]@ == b@[k]@,
        decreases a.len() - i,
    {
        if a[i] != b[i] {
            assert(texts(a@)[i as int] != texts(b@)[i as int]);
            return false;
        }
        i = i + 1;
    }
    assert(texts(a@) =~= texts(b@));
    true
}

/// Applies the edit to one task and says whether anything changed.
fn edit_task(t: &mut Task, opts: &BulkEditOpts, due: Option<Date>) -> (changed: bool)
    ensures
        final(t)@ == edited(old(t)@, *opts, due),
        changed == (final(t)@ != old(t)@),
{
    let ghost t0 = t@;
    let mut changed = false;
    if opts.clear_due {
        if t.due.is_some() {
            changed = true;
        }
        t.due = None;
    } else {
        match due {
            Some(d) => {
                match t.due {
                    Some(old_d) => {
                        if old_d != d {
                            changed = true;
                        }
                    },
                    None => {
                        changed = true;
                    },
                }
                t.due = Some(d);
            },
            None => {},
        }
    }
    assert(changed == (t@.due != t0.due));
    if opts.clear_priority {
        if t.priority.is_some() {
            changed = true;
        }
        t.priority = None;
    } else {
        match opts.priority {
            Some(p) => {
                match t.priority {
                    Some(old_p) => {
                        if old_p != p {
                            changed = true;
                        }
                    },
                    None => {
                        changed = true;
                    },
                }
                t.priority = Some(p);
            },
            None => {},
        }
    }
    assert(changed == (t@.due != t0.due || t@.priority != t0.priority));
    if opts.clear_repeat {
        if t.repeat.is_some() {
            changed = true;
        }
        t.repeat = None;
    } else {
        match opts.repeat {
            Some(rp) => {
                match t.repeat {
                    Some(old_r) => {
                        if old_r != rp {
                            changed = true;
                        }
                    },
                    None => {
                        changed = true;
                    },
                }
                t.repeat = Some(rp);
            },
            None => {},
        }
    }
    assert(changed == (t@.due != t0.due || t@.priority != t0.priority || t@.repeat != t0.repeat));
    if opts.clear_tags {
        if t.tags.len() > 0 {
            changed = true;
            assert(texts(t.tags@).len() > 0);
        } else {
            assert(texts(t.tags@) =~= Seq::<Seq<char>>::empty());
        }
        t.tags = Vec::new();
        assert(texts(t.tags@) =~= Seq::<Seq<char>>::empty());
    } else if opts.tags.len() > 0 || opts.remove_tags.len() > 0 {
        let before = copy_texts(t.tags.as_slice());
        assert(texts(before@) == t0.tags);
        apply_tag_changes(&mut t.tags, opts.tags.as_slice(), opts.remove_tags.as_slice());
        if !same_texts(&before, &t.tags) {
            changed = true;
        }
    }
    assert(changed == (t@.due != t0.due || t@.priority != t0.priority || t@.repeat != t0.repeat
        || t@.tags != t0.tags));
    changed
}

/// Edits every picked task. Does nothing and returns 0 when the edit asks for nothing; reads
/// the new due date once, first, and returns its error without touching any task. Returns how
/// many tasks changed.
pub fn bulk_edit(
    tasks: &mut Vec<Task>,
    query: &str,
    branch: &str,
    opts: &BulkEditOpts,
    today: Date,
) -> (r: Result<usize, String>)
    requires
        today.wf(),
    ensures
        is_noop(*opts) ==> r == Ok::<usize, String>(0) && task_views(final(tasks)@) == task_views(
            old(tasks)@,
        ),
        !is_noop(*opts) && opts.due is None ==> (r matches Ok(n) && edit_outcome(
            task_views(old(tasks)@),
            task_views(final(tasks)@),
            query@,
            branch@,
            *opts,
            None,
            n as int,
        )),
        !is_noop(*opts) && opts.due is Some ==> due_edit_result(
            task_views(old(tasks)@),
            task_views(final(tasks)@),
            query@,
            branch@,
            *opts,
            due_from_key(lower_of(trim_of(opts.due->0@)), today),
            r,
        ),
{
    let ghost before = task_views(tasks@);
    if opts.due.is_none() && opts.priority.is_none() && opts.repeat.is_none() && opts.tags.len()
        == 0 && opts.remove_tags.len() == 0 && !opts.clear_due && !opts.clear_priority
        && !opts.clear_repeat && !opts.clear_tags {
        return Ok(0);
    }
    let parsed = match &opts.due {
        Some(text) => {
            let pr = parse_due(text.as_str(), today);
            match pr {
                Ok(d) => Some(d),
                Err(e) => {
                    return Err(e);
                },
            }
        },
        None => None,
    };
    let q = lowercase(query);
    let mut count: usize = 0;
    let mut i: usize = 0;
    while i < tasks.len()
        invariant
            i <= tasks.len(),
            tasks@.len() == before.len(),
            q@ == lower_of(query@),
            count <= i,
            count == before.take(i as int).filter(edit_pred(query@, branch@, *opts, parsed)).len(),
            forall|k: int|
                0 <= k < i ==> #[trigger] tasks@[k]@ == if picked(before[k], query@, branch@) {
                    edited(before[k], *opts, parsed)
                } else {
                    before[k]
                },
            forall|k: int| i <= k < tasks@.len() ==> #[trigger] tasks@[k]@ == before[k],
        decreases tasks.len() - i,
    {
        let ghost prev = before.take(i as int);
        proof {
            assert(before.take(i + 1) =~= prev.push(before[i as int]));
            prev.lemma_filter_push(before[i as int], edit_pred(query@, branch@, *opts, parsed));
            assert(tasks@[i as int]@ == before[i as int]);
        }
        let hit = eq_ignore_case(tasks[i].branch.as_str(), branch) && !tasks[i].archived
            && task_matches(&tasks[i], q.as_str());
        if hit {
            let mut t = tasks[i].copy();
            let changed = edit_task(&mut t, opts, parsed);
            tasks.set(i, t);
            if changed {
                count += 1;
            }
        }
        i = i + 1;
    }
    assert(before.take(i as int) =~= before);
    Ok(count)
}

} // verus!
