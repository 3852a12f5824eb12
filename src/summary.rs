//! Counts and reminder groups over the task list, relative to a given day.

use vstd::prelude::*;

use crate::date::{add_days, in_date_range, Date};
use crate::model::{task_views, Task, TaskView};
use crate::ops::{has_any_tag, in_branch, tags_match};
use crate::text::{eq_ignore_case, texts};

verus! {

/// `a` is an earlier day than `b`.
pub open spec fn date_before(a: Date, b: Date) -> bool {
    a.year < b.year || (a.year == b.year && (a.month < b.month || (a.month == b.month && a.day
        < b.day)))
}

fn is_before(a: Date, b: Date) -> (r: bool)
    ensures
        r == date_before(a, b),
{
    a.year < b.year || (a.year == b.year && (a.month < b.month || (a.month == b.month && a.day
        < b.day)))
}

/// Open tasks not archived, in branch `b` where one is given.
pub open spec fn open_in(t: TaskView, b: Option<Seq<char>>) -> bool {
    !t.done && !t.archived && match b {
        Some(x) => in_branch(t, x),
        None => true,
    }
}

pub open spec fn open_pred(b: Option<Seq<char>>) -> spec_fn(TaskView) -> bool {
    |t: TaskView| open_in(t, b)
}

pub open spec fn overdue_pred(b: Option<Seq<char>>, today: Date) -> spec_fn(TaskView) -> bool {
    |t: TaskView| open_in(t, b) && (t.due matches Some(d) && date_before(d, today))
}

pub open spec fn due_today_pred(b: Option<Seq<char>>, today: Date) -> spec_fn(TaskView) -> bool {
    |t: TaskView| open_in(t, b) && t.due == Some(today)
}

fn summary(tasks: &[Task], branch: Option<&str>, today: Date) -> (r: (usize, usize, usize))
    ensures
        ({
            let v = task_views(tasks@);
            let b = match branch {
                Some(x) => Some(x@),
                None => None,
            };
            &&& r.0 == v.filter(open_pred(b)).len()
            &&& r.1 == v.filter(overdue_pred(b, today)).len()
            &&& r.2 == v.filter(due_today_pred(b, today)).len()
        }),
{
    let ghost v = task_views(tasks@);
    let ghost b = match branch {
        Some(x) => Some(x@),
        None => None,
    };
    let mut open: usize = 0;
    let mut overdue: usize = 0;
    let mut due_today: usize = 0;
    let mut i: usize = 0;
    while i < tasks.len()
        invariant
            i <= tasks.len(),
            v == task_views(tasks@),
            b == match branch {
                Some(x) => Some(x@),
                None => None::<Seq<char>>,
            },
            open == v.take(i as int).filter(open_pred(b)).len(),
            overdue == v.take(i as int).filter(overdue_pred(b, today)).len(),
            due_today == v.take(i as int).filter(due_today_pred(b, today)).len(),
            open <= i && overdue <= i && due_today <= i,
        decreases tasks.len() - i,
    {
        let ghost prev = v.take(i as int);
        proof {
            assert(v.take(i + 1) =~= prev.push(v[i as int]));
            prev.lemma_filter_push(v[i as int], open_pred(b));
            prev.lemma_filter_push(v[i as int], overdue_pred(b, today));
            prev.lemma_filter_push(v[i as int], due_today_pred(b, today));
        }
        let t = &tasks[i];
        let in_b = match branch {
            Some(x) => eq_ignore_case(t.branch.as_str(), x),
            None => true,
        };
        if !t.done && !t.archived && in_b {
            open += 1;
            match t.due {
                Some(d) => {
                    if is_before(d, today) {
                        overdue += 1;
                    } else if d == today {
                        due_today += 1;
                    }
                },
                None => {},
            }
        }
        i = i + 1;
    }
    assert(v.take(i as int) =~= v);
    (open, overdue, due_today)
}

/// Open, overdue and due-today counts of a branch's open, unarchived tasks.
pub fn task_summary_current_branch(tasks: &[Task], branch: &str, today: Date) -> (r: (usize, usize, usize))
    ensures
        ({
            let v = task_views(tasks@);
            &&& r.0 == v.filter(open_pred(Some(branch@))).len()
            &&& r.1 == v.filter(overdue_pred(Some(branch@), today)).len()
            &&& r.2 == v.filter(due_today_pred(Some(branch@), today)).len()
        }),
{
    summary(tasks, Some(branch), today)
}

/// Open, overdue and due-today counts of all open, unarchived tasks.
pub fn task_summary_all(tasks: &[Task], today: Date) -> (r: (usize, usize, usize))
    ensures
        ({
            let v = task_views(tasks@);
            &&& r.0 == v.filter(open_pred(None)).len()
            &&& r.1 == v.filter(overdue_pred(None, today)).len()
            &&& r.2 == v.filter(due_today_pred(None, today)).len()
        }),
{
    summary(tasks, None, today)
}

/// Where a task stands among reminders: 0 overdue, 1 due today, 2 upcoming within the window
/// ending on `horizon`, 3 none.
pub open spec fn reminder_group(
    t: TaskView,
    b: Seq<char>,
    tags: Seq<Seq<char>>,
    today: Date,
    days: u32,
    horizon: Option<Date>,
) -> int {
    if t.done || t.archived || !in_branch(t, b) || !has_any_tag(t, tags) || t.due is None {
        3
    } else {
        let d = t.due->0;
        if date_before(d, today) {
            0
        } else if d == today {
            1
        } else if days > 0 && (horizon matches Some(h) && !date_before(h, d)) {
            2
        } else {
            3
        }
    }
}

/// The positions below `n` that `f` picks, in increasing order.
pub open spec fn positions(n: int, f: spec_fn(int) -> bool) -> Seq<usize>
    decreases n,
{
    if n <= 0 {
        Seq::empty()
    } else {
        let p = positions(n - 1, f);
        if f(n - 1) {
            p.push((n - 1) as usize)
        } else {
            p
        }
    }
}

/// Positions of `tasks` in reminder group `g`.
pub open spec fn in_group(
    tasks: Seq<Task>,
    b: Seq<char>,
    tags: Seq<Seq<char>>,
    today: Date,
    days: u32,
    g: int,
) -> spec_fn(int) -> bool {
    |k: int| reminder_group(tasks[k]@, b, tags, today, days, days_later(today, days as int)) == g
}

/// The positions of the open tasks of a branch, with one of `tags`, that are overdue, due today,
/// and due within `reminder_days` days, in list order.
pub fn reminder_groups(tasks: &[Task], branch: &str, tags: &[String], reminder_days: u32, today: Date) -> (r: (
    Vec<usize>,
    Vec<usize>,
    Vec<usize>,
))
    requires
        today.wf(),
    ensures
        r.0@ == positions(tasks@.len() as int, in_group(tasks@, branch@, texts(tags@), today, reminder_days, 0)),
        r.1@ == positions(tasks@.len() as int, in_group(tasks@, branch@, texts(tags@), today, reminder_days, 1)),
        r.2@ == positions(tasks@.len() as int, in_group(tasks@, branch@, texts(tags@), today, reminder_days, 2)),
{
    let horizon = add_days(today, reminder_days);
    proof {
        if let Some(h) = horizon {
            let x = choose|x: Date| x.wf() && x.number() == today.number() + reminder_days;
            crate::date::lemma_number_injective(h, x);
        }
    }
    assert(horizon == days_later(today, reminder_days as int));
    let ghost f0 = in_group(tasks@, branch@, texts(tags@), today, reminder_days, 0);
    let ghost f1 = in_group(tasks@, branch@, texts(tags@), today, reminder_days, 1);
    let ghost f2 = in_group(tasks@, branch@, texts(tags@), today, reminder_days, 2);
    let mut overdue: Vec<usize> = Vec::new();
    let mut due_today: Vec<usize> = Vec::new();
    let mut upcoming: Vec<usize> = Vec::new();
    let mut i: usize = 0;
    while i < tasks.len()
        invariant
            i <= tasks.len(),
            horizon == days_later(today, reminder_days as int),
            f0 == in_group(tasks@, branch@, texts(tags@), today, reminder_days, 0),
            f1 == in_group(tasks@, branch@, texts(tags@), today, reminder_days, 1),
            f2 == in_group(tasks@, branch@, texts(tags@), today, reminder_days, 2),
            overdue@ == positions(i as int, f0),
            due_today@ == positions(i as int, f1),
            upcoming@ == positions(i as int, f2),
        decreases tasks.len() - i,
    {
        let t = &tasks[i];
        let g: u8 = if t.done || t.archived || !eq_ignore_case(t.branch.as_str(), branch)
            || !tags_match(t, tags) {
            3
        } else {
            match t.due {
                None => 3,
                Some(d) => if is_before(d, today) {
                    0
                } else if d == today {
                    1
                } else if reminder_days > 0 && match horizon {
                    Some(h) => !is_before(h, d),
                    None => false,
                } {
                    2
                } else {
                    3
                },
            }
        };
        assert(g == reminder_group(tasks@[i as int]@, branch@, texts(tags@), today, reminder_days, horizon));
        if g == 0 {
            overdue.push(i);
        } else if g == 1 {
            due_today.push(i);
        } else if g == 2 {
            upcoming.push(i);
        }
        i = i + 1;
    }
    (overdue, due_today, upcoming)
}

/// The day `n` days after `d`, where it is within the supported range.
pub open spec fn days_later(d: Date, n: int) -> Option<Date> {
    if in_date_range(d.number() + n) {
        Some(choose|x: Date| x.wf() && x.number() == d.number() + n)
    } else {
        None
    }
}

/// Counts over the whole list for the statistics screen.
#[derive(Clone, Copy, Debug, PartialEq, Eq, Structural)]
pub struct TaskStats {
    pub total: usize,
    pub done: usize,
    pub overdue: usize,
    pub due_today: usize,
    pub archived: usize,
    pub repeating: usize,
}

pub open spec fn done_pred() -> spec_fn(TaskView) -> bool {
    |t: TaskView| t.done
}

pub open spec fn archived_pred() -> spec_fn(TaskView) -> bool {
    |t: TaskView| t.archived
}

pub open spec fn repeating_pred() -> spec_fn(TaskView) -> bool {
    |t: TaskView| t.repeat is Some
}

/// How many tasks there are, done, overdue and due today (open, unarchived ones), archived,
/// and repeating.
pub fn task_stats(tasks: &[Task], today: Date) -> (r: TaskStats)
    ensures
        ({
            let v = task_views(tasks@);
            &&& r.total == v.len()
            &&& r.done == v.filter(done_pred()).len()
            &&& r.overdue == v.filter(overdue_pred(None, today)).len()
            &&& r.due_today == v.filter(due_today_pred(None, today)).len()
            &&& r.archived == v.filter(archived_pred()).len()
            &&& r.repeating == v.filter(repeating_pred()).len()
        }),
{
    let ghost v = task_views(tasks@);
    let (_, overdue, due_today) = summary(tasks, None, today);
    let mut done: usize = 0;
    let mut archived: usize = 0;
    let mut repeating: usize = 0;
    let mut i: usize = 0;
    while i < tasks.len()
        invariant
            i <= tasks.len(),
            v == task_views(tasks@),
            done == v.take(i as int).filter(done_pred()).len(),
            archived == v.take(i as int).filter(archived_pred()).len(),
            repeating == v.take(i as int).filter(repeating_pred()).len(),
            done <= i && archived <= i && repeating <= i,
        decreases tasks.len() - i,
    {
        let ghost prev = v.take(i as int);
        proof {
            assert(v.take(i + 1) =~= prev.push(v[i as int]));
            prev.lemma_filter_push(v[i as int], done_pred());
            prev.lemma_filter_push(v[i as int], archived_pred());
            prev.lemma_filter_push(v[i as int], repeating_pred());
        }
        if tasks[i].done {
            done += 1;
        }
        if tasks[i].archived {
            archived += 1;
        }
        if tasks[i].repeat.is_some() {
            repeating += 1;
        }
        i = i + 1;
    }
    assert(v.take(i as int) =~= v);
    TaskStats { total: tasks.len(), done, overdue, due_today, archived, repeating }
}

pub open spec fn branch_done_pred(b: Seq<char>) -> spec_fn(TaskView) -> bool {
    |t: TaskView| in_branch(t, b) && t.done
}

pub open spec fn branch_archived_pred(b: Seq<char>) -> spec_fn(TaskView) -> bool {
    |t: TaskView| in_branch(t, b) && t.archived
}

/// How many tasks a branch holds, how many of them are done, and how many archived.
pub fn branch_counts(tasks: &[Task], branch: &str) -> (r: (usize, usize, usize))
    ensures
        r.0 == task_views(tasks@).filter(crate::commands::branch_pred(branch@)).len(),
        r.1 == task_views(tasks@).filter(branch_done_pred(branch@)).len(),
        r.2 == task_views(tasks@).filter(branch_archived_pred(branch@)).len(),
{
    let ghost v = task_views(tasks@);
    let mut total: usize = 0;
    let mut done: usize = 0;
    let mut archived: usize = 0;
    let mut i: usize = 0;
    while i < tasks.len()
        invariant
            i <= tasks.len(),
            v == task_views(tasks@),
            total == v.take(i as int).filter(crate::commands::branch_pred(branch@)).len(),
            done == v.take(i as int).filter(branch_done_pred(branch@)).len(),
            archived == v.take(i as int).filter(branch_archived_pred(branch@)).len(),
            total <= i && done <= i && archived <= i,
        decreases tasks.len() - i,
    {
        let ghost prev = v.take(i as int);
        proof {
            assert(v.take(i + 1) =~= prev.push(v[i as int]));
            prev.lemma_filter_push(v[i as int], crate::commands::branch_pred(branch@));
            prev.lemma_filter_push(v[i as int], branch_done_pred(branch@));
            prev.lemma_filter_push(v[i as int], branch_archived_pred(branch@));
        }
        if eq_ignore_case(tasks[i].branch.as_str(), branch) {
            total += 1;
            if tasks[i].done {
                done += 1;
            }
            if tasks[i].archived {
                archived += 1;
            }
        }
        i = i + 1;
    }
    assert(v.take(i as int) =~= v);
    (total, done, archived)
}

} // verus!
