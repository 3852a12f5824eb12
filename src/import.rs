//! Building tasks from loosely typed import rows.

use vstd::prelude::*;

use crate::branch::{branch_norm, normalize_branch};
use crate::date::{due_from_key, parse_due, Clock, Date};
use crate::model::{priority_word, repeat_word, task_views, AppConfig, IdScope, Priority, Repeat, Task, TaskView};
use crate::ops::{id_room, lemma_max_id, lemma_max_id_same, max_id, next_task_id, ID_LIMIT};
use crate::text::{
    ascii_fold, bool_word, eq_ignore_case, lower_of, normalize_tags, opt_text, parse_bool_flag, sorted_set, tag_set, texts,
    trim_of, trim_text,
};

verus! {

/// The fields of one imported row, each optional but the title.
pub struct TaskParts {
    pub uid: Option<String>,
    pub title: String,
    pub content: Option<String>,
    pub tags: Vec<String>,
    pub due: Option<String>,
    pub priority: Option<Priority>,
    pub repeat: Option<Repeat>,
    pub branch: Option<String>,
    pub done: Option<bool>,
    pub archived: Option<bool>,
    pub created_at: Option<String>,
}

/// The due date that a row's text gives: what `parse_due` reads, or nothing where it fails.
pub open spec fn row_due(due: Option<String>, today: Date) -> Option<Date> {
    match due {
        Some(s) => match due_from_key(lower_of(trim_of(s@)), today) {
            Ok(d) => Some(d),
            Err(_) => None,
        },
        None => None,
    }
}

/// The branch a row goes to: its own, trimmed, or `default`.
pub open spec fn row_branch(branch: Option<String>, default: Seq<char>) -> Seq<char> {
    match branch_norm(opt_text(branch)) {
        Some(b) => b,
        None => default,
    }
}

/// The task built from `p` with id `id`, carrying the row's own uid, if any.
pub open spec fn built(
    p: TaskParts,
    default: Seq<char>,
    id: int,
    today: Date,
    stamp: Seq<char>,
) -> TaskView {
    TaskView {
        id: id as u64,
        uid: opt_text(p.uid),
        title: p.title@,
        content: opt_text(p.content),
        tags: sorted_set(tag_set(texts(p.tags@))),
        due: row_due(p.due, today),
        priority: p.priority,
        repeat: p.repeat,
        branch: row_branch(p.branch, default),
        archived: match p.archived {
            Some(x) => x,
            None => false,
        },
        done: match p.done {
            Some(x) => x,
            None => false,
        },
        created_at: match p.created_at {
            Some(c) => c@,
            None => stamp,
        },
    }
}

/// `actual` is `expected` but for a uid drawn at random where `expected` has none and
/// `use_uuid` is set.
pub open spec fn uid_filled(expected: TaskView, actual: TaskView, use_uuid: bool) -> bool {
    &&& TaskView { uid: expected.uid, ..actual } == expected
    &&& if expected.uid is Some || !use_uuid {
        actual.uid == expected.uid
    } else {
        actual.uid is Some
    }
}

/// Builds a task from an import row with id `*next_id`, moving the cursor on; a row whose title
/// is blank gives nothing. A due date that does not parse is dropped.
pub fn build_task_from_parts(
    parts: TaskParts,
    default_branch: &str,
    next_id: &mut u64,
    config: &AppConfig,
    clock: &Clock,
) -> (r: Option<Task>)
    requires
        *old(next_id) < u64::MAX,
        clock.today.wf(),
    ensures
        trim_of(parts.title@).len() == 0 ==> r is None && *final(next_id) == *old(next_id),
        trim_of(parts.title@).len() != 0 ==> (r matches Some(t) && *final(next_id) == *old(next_id)
            + 1 && t@.wf() && uid_filled(
            built(parts, default_branch@, *old(next_id) as int, clock.today, clock.timestamp@),
            t@,
            config.use_uuid,
        )),
{
    let title_trim = trim_text(parts.title.as_str());
    if title_trim.unicode_len() == 0 {
        return None;
    }
    let ghost p = parts;
    let TaskParts {
        uid,
        title,
        content,
        tags,
        due: due_text,
        priority,
        repeat,
        branch,
        done,
        archived,
        created_at,
    } = parts;
    let due = match &due_text {
        Some(value) => {
            let pr = parse_due(value.as_str(), clock.today);
            match pr {
                Ok(d) => Some(d),
                Err(_) => None,
            }
        },
        None => None,
    };
    let b = match normalize_branch(branch) {
        Some(x) => x,
        None => String::from_str(default_branch),
    };
    let created = match created_at {
        Some(c) => c,
        None => clock.timestamp.clone(),
    };
    let uid = match uid {
        Some(u) => Some(u),
        None => if config.use_uuid {
            Some(crate::ops::new_uid())
        } else {
            None
        },
    };
    let tags = normalize_tags(tags.as_slice());
    let task = Task {
        id: *next_id,
        uid,
        title,
        content,
        tags,
        due,
        priority,
        repeat,
        branch: b,
        archived: match archived {
            Some(x) => x,
            None => false,
        },
        done: match done {
            Some(x) => x,
            None => false,
        },
        created_at: created,
    };
    *next_id = *next_id + 1;
    Some(task)
}

/// Where an import stands after some rows: the task list (with the rows' own uids), the id
/// cursor of each branch named so far (keyed by the name with ASCII case folded), the cursor
/// under global ids, and the counts: rows imported, skipped, absent (unreadable or without a
/// title), and with a blank title.
pub struct ImportState {
    pub tasks: Seq<TaskView>,
    pub cursors: Map<Seq<int>, int>,
    pub global: int,
    pub imported: int,
    pub skipped: int,
    pub missing: int,
    pub blank: int,
}

/// One row of an import; `None` stands for a row that could not be read or has no title.
/// Under branch-scoped ids, a branch's cursor starts at its next free id when first named
/// and is kept for later rows naming the same branch in any ASCII case.
pub open spec fn import_step(
    st: ImportState,
    row: Option<TaskParts>,
    default: Seq<char>,
    scope: IdScope,
    today: Date,
    stamp: Seq<char>,
) -> ImportState {
    match row {
        None => ImportState { skipped: st.skipped + 1, missing: st.missing + 1, ..st },
        Some(p) => {
            let target = row_branch(p.branch, default);
            let key = ascii_fold(target);
            let cursor = if scope == IdScope::Branch {
                if st.cursors.contains_key(key) {
                    st.cursors[key]
                } else {
                    max_id(st.tasks, scope, target) + 1
                }
            } else {
                st.global
            };
            if trim_of(p.title@).len() == 0 {
                ImportState {
                    cursors: if scope == IdScope::Branch {
                        st.cursors.insert(key, cursor)
                    } else {
                        st.cursors
                    },
                    skipped: st.skipped + 1,
                    blank: st.blank + 1,
                    ..st
                }
            } else {
                ImportState {
                    tasks: st.tasks.push(built(p, default, cursor, today, stamp)),
                    cursors: if scope == IdScope::Branch {
                        st.cursors.insert(key, cursor + 1)
                    } else {
                        st.cursors
                    },
                    global: if scope == IdScope::Branch {
                        st.global
                    } else {
                        cursor + 1
                    },
                    imported: st.imported + 1,
                    ..st
                }
            }
        },
    }
}

/// An import of `rows`, one after the other, from `start`.
pub open spec fn import_fold(
    start: ImportState,
    rows: Seq<Option<TaskParts>>,
    default: Seq<char>,
    scope: IdScope,
    today: Date,
    stamp: Seq<char>,
) -> ImportState
    decreases rows.len(),
{
    if rows.len() == 0 {
        start
    } else {
        import_step(
            import_fold(start, rows.drop_last(), default, scope, today, stamp),
            rows.last(),
            default,
            scope,
            today,
            stamp,
        )
    }
}

/// The state an import into `tasks` starts from.
pub open spec fn import_start(tasks: Seq<TaskView>, default: Seq<char>, scope: IdScope) -> ImportState {
    ImportState {
        tasks,
        cursors: Map::empty(),
        global: max_id(tasks, scope, default) + 1,
        imported: 0,
        skipped: 0,
        missing: 0,
        blank: 0,
    }
}

/// The cursors recorded in a list of (branch, next id) pairs, keyed by the branch with ASCII
/// case folded; later pairs win.
pub open spec fn cursor_map(cs: Seq<(String, u64)>) -> Map<Seq<int>, int>
    decreases cs.len(),
{
    if cs.len() == 0 {
        Map::empty()
    } else {
        cursor_map(cs.drop_last()).insert(ascii_fold(cs.last().0@), cs.last().1 as int)
    }
}

proof fn lemma_cursor_suffix(cs: Seq<(String, u64)>, i: int, key: Seq<int>)
    requires
        0 <= i <= cs.len(),
        forall|j: int| i <= j < cs.len() ==> ascii_fold((#[trigger] cs[j]).0@) != key,
    ensures
        cursor_map(cs).contains_key(key) == cursor_map(cs.take(i)).contains_key(key),
        cursor_map(cs).contains_key(key) ==> cursor_map(cs)[key] == cursor_map(cs.take(i))[key],
    decreases cs.len() - i,
{
    if i < cs.len() {
        let d = cs.drop_last();
        assert forall|j: int| i <= j < d.len() implies ascii_fold((#[trigger] d[j]).0@) != key by {
            assert(d[j] == cs[j]);
        }
        lemma_cursor_suffix(d, i, key);
        assert(d.take(i) =~= cs.take(i));
    } else {
        assert(cs.take(i) =~= cs);
    }
}

fn find_cursor(cs: &Vec<(String, u64)>, key: &str) -> (r: Option<u64>)
    ensures
        r is Some <==> cursor_map(cs@).contains_key(ascii_fold(key@)),
        r matches Some(c) ==> cursor_map(cs@)[ascii_fold(key@)] == c as int,
{
    let mut i: usize = cs.len();
    while i > 0
        invariant
            i <= cs@.len(),
            forall|j: int| i <= j < cs@.len() ==> ascii_fold((#[trigger] cs@[j]).0@) != ascii_fold(key@),
        decreases i,
    {
        if eq_ignore_case(cs[i - 1].0.as_str(), key) {
            proof {
                lemma_cursor_suffix(cs@, i as int, ascii_fold(key@));
                assert(cs@.take(i as int).drop_last() =~= cs@.take(i - 1));
            }
            return Some(cs[i - 1].1);
        }
        i = i - 1;
    }
    proof {
        lemma_cursor_suffix(cs@, 0, ascii_fold(key@));
        assert(cs@.take(0) =~= Seq::<(String, u64)>::empty());
    }
    None
}

/// Imports rows in order; returns how many were imported, how many skipped, how many of the
/// skipped were absent, and how many had a blank title.
fn import_parts(
    tasks: &mut Vec<Task>,
    rows: Vec<Option<TaskParts>>,
    branch: &str,
    config: &AppConfig,
    clock: &Clock,
) -> (r: (usize, usize, usize, usize))
    requires
        id_room(task_views(old(tasks)@)),
        rows@.len() < ID_LIMIT,
        clock.today.wf(),
    ensures
        import_outcome(
            task_views(old(tasks)@),
            task_views(final(tasks)@),
            rows@,
            branch@,
            *config,
            clock.today,
            clock.timestamp@,
            r.0 as int,
            r.1 as int,
            r.2 as int,
            r.3 as int,
        ),
        r.1 == r.2 + r.3,
{
    let ghost before = task_views(tasks@);
    let ghost orig_tasks = tasks@;
    let ghost all_rows = rows@;
    let ghost scope = config.id_scope;
    let ghost today = clock.today;
    let ghost stamp = clock.timestamp@;
    proof {
        crate::ops::lemma_room_ids(tasks@);
        lemma_max_id(before, scope, branch@, ID_LIMIT - 1);
    }
    let mut global = next_task_id(tasks.as_slice(), config.id_scope, Some(branch));
    let mut cursors: Vec<(String, u64)> = Vec::new();
    let total = rows.len();
    let mut rest = rows;
    let mut imported: usize = 0;
    let mut skipped: usize = 0;
    let mut missing: usize = 0;
    let mut blank: usize = 0;
    let mut i: usize = 0;
    let ghost mut st = import_start(before, branch@, scope);
    assert(all_rows.take(0) =~= Seq::<Option<TaskParts>>::empty());
    assert forall|k: int| 0 <= k < st.tasks.len() implies (#[trigger] st.tasks[k]).id <= ID_LIMIT - 1 + i by {
        assert(st.tasks[k] == orig_tasks[k]@);
    }
    while rest.len() > 0
        invariant
            i + rest@.len() == all_rows.len(),
            total == all_rows.len(),
            rest@ == all_rows.skip(i as int),
            all_rows.len() < ID_LIMIT,
            scope == config.id_scope,
            today == clock.today,
            stamp == clock.timestamp@,
            today.wf(),
            before == task_views(orig_tasks),
            st == import_fold(import_start(before, branch@, scope), all_rows.take(i as int), branch@, scope, today, stamp),
            tasks@.len() == st.tasks.len(),
            orig_tasks.len() <= st.tasks.len(),
            forall|k: int| 0 <= k < orig_tasks.len() ==> #[trigger] tasks@[k]@ == orig_tasks[k]@,
            forall|k: int| orig_tasks.len() <= k < st.tasks.len() ==> uid_filled(st.tasks[k], #[trigger] tasks@[k]@, config.use_uuid),
            forall|k: int| 0 <= k < st.tasks.len() ==> (#[trigger] st.tasks[k]).id <= ID_LIMIT - 1 + i,
            forall|k: int| 0 <= k < orig_tasks.len() ==> #[trigger] st.tasks[k] == orig_tasks[k]@,
            cursor_map(cursors@) == st.cursors,
            forall|key: Seq<int>| #[trigger] st.cursors.contains_key(key) ==> st.cursors[key] <= ID_LIMIT + i,
            scope == IdScope::Global ==> global == st.global,
            global <= ID_LIMIT + i,
            imported == st.imported,
            skipped == st.skipped,
            missing == st.missing,
            blank == st.blank,
            blank <= i,
            skipped == missing + blank,
            imported <= i,
            skipped <= i,
            missing <= i,
        decreases rest@.len(),
    {
        let ghost row0 = all_rows[i as int];
        assert(all_rows.take(i + 1).drop_last() =~= all_rows.take(i as int));
        assert(all_rows.take(i + 1).last() == row0);
        let row = rest.remove(0);
        assert(row == row0);
        assert(rest@ =~= all_rows.skip(i + 1));
        let ghost next = import_step(st, row0, branch@, scope, today, stamp);
        proof {
            assert forall|k: int| 0 <= k < tasks@.len() implies (#[trigger] task_views(tasks@)[k]).id == st.tasks[k].id && task_views(tasks@)[k].branch == st.tasks[k].branch by {
                if k < orig_tasks.len() {
                    assert(tasks@[k]@ == orig_tasks[k]@);
                } else {
                    assert(uid_filled(st.tasks[k], tasks@[k]@, config.use_uuid));
                }
            }
        }
        match row {
            None => {
                skipped += 1;
                missing += 1;
            },
            Some(p) => {
                let ghost pv = p;
                let TaskParts {
                    uid,
                    title,
                    content,
                    tags,
                    due,
                    priority,
                    repeat,
                    branch: row_b,
                    done,
                    archived,
                    created_at,
                } = p;
                let target = match normalize_branch(row_b) {
                    Some(b) => b,
                    None => String::from_str(branch),
                };
                assert(target@ == row_branch(pv.branch, branch@));
                let mut cursor: u64 = global;
                if config.id_scope == IdScope::Branch {
                    match find_cursor(&cursors, target.as_str()) {
                        Some(c) => {
                            cursor = c;
                        },
                        None => {
                            proof {
                                assert forall|k: int| 0 <= k < tasks@.len() implies (#[trigger] tasks@[k]).id < u64::MAX by {
                                    assert(task_views(tasks@)[k].id == tasks@[k].id);
                                }
                                lemma_max_id_same(task_views(tasks@), st.tasks, scope, target@);
                                lemma_max_id(st.tasks, scope, target@, ID_LIMIT - 1 + i);
                            }
                            cursor = next_task_id(tasks.as_slice(), config.id_scope, Some(target.as_str()));
                        },
                    }
                }
                let ghost cs0 = cursors@;
                let parts = TaskParts {
                    uid,
                    title,
                    content,
                    tags,
                    due,
                    priority,
                    repeat,
                    branch: None,
                    done,
                    archived,
                    created_at,
                };
                let ghost cur0 = cursor;
                let built_task = build_task_from_parts(parts, target.as_str(), &mut cursor, config, clock);
                if config.id_scope == IdScope::Branch {
                    cursors.push((target, cursor));
                    assert(cursors@.drop_last() =~= cs0);
                } else {
                    global = cursor;
                }
                match built_task {
                    Some(t) => {
                        tasks.push(t);
                        imported += 1;
                    },
                    None => {
                        skipped += 1;
                        blank += 1;
                    },
                }
            },
        }
        proof {
            st = next;
        }
        i = i + 1;
    }
    assert(all_rows.take(i as int) =~= all_rows);
    proof {
        let after = task_views(tasks@);
        assert forall|k: int| 0 <= k < before.len() implies #[trigger] after[k] == before[k] by {
            assert(tasks@[k]@ == orig_tasks[k]@);
        }
        assert forall|k: int| before.len() <= k < st.tasks.len() implies uid_filled(st.tasks[k], #[trigger] after[k], config.use_uuid) by {
            assert(uid_filled(st.tasks[k], tasks@[k]@, config.use_uuid));
        }
    }
    (imported, skipped, missing, blank)
}

/// The counts that an import reports.
#[derive(Clone, Copy, Debug, PartialEq, Eq, Structural)]
pub struct ImportResult {
    pub imported: usize,
    pub skipped: usize,
    pub skipped_title: usize,
    pub skipped_parse: usize,
}

/// An object of a JSON import: every field optional.
pub struct JsonRow {
    pub uid: Option<String>,
    pub title: Option<String>,
    pub content: Option<String>,
    pub tags: Option<Vec<String>>,
    pub due: Option<String>,
    pub priority: Option<Priority>,
    pub repeat: Option<Repeat>,
    pub branch: Option<String>,
    pub done: Option<bool>,
    pub archived: Option<bool>,
    pub created_at: Option<String>,
}

/// A record of a CSV import: the title is required, the rest is free text.
pub struct CsvRow {
    pub uid: Option<String>,
    pub title: String,
    pub content: Option<String>,
    pub tags: Option<String>,
    pub due: Option<String>,
    pub priority: Option<String>,
    pub repeat: Option<String>,
    pub branch: Option<String>,
    pub done: Option<String>,
    pub archived: Option<String>,
    pub created_at: Option<String>,
}

/// The parts of a JSON object; nothing where it has no title.
pub open spec fn json_parts(row: JsonRow, p: Option<TaskParts>) -> bool {
    match row.title {
        None => p is None,
        Some(t) => p matches Some(x) && x.title@ == t@ && opt_text(x.uid) == opt_text(row.uid)
            && opt_text(x.content) == opt_text(row.content) && texts(x.tags@) == match row.tags {
            Some(v) => texts(v@),
            None => Seq::empty(),
        } && opt_text(x.due) == opt_text(row.due) && x.priority == row.priority && x.repeat
            == row.repeat && opt_text(x.branch) == opt_text(row.branch) && x.done == row.done
            && x.archived == row.archived && opt_text(x.created_at) == opt_text(row.created_at),
    }
}

/// The pieces of `s` between commas.
pub open spec fn comma_pieces(s: Seq<char>) -> Seq<Seq<char>>
    decreases s.len(),
{
    if s.len() == 0 {
        seq![Seq::empty()]
    } else {
        let p = comma_pieces(s.drop_last());
        if s.last() == ',' {
            p.push(Seq::empty())
        } else {
            p.update(p.len() - 1, p.last().push(s.last()))
        }
    }
}

proof fn lemma_comma_pieces_len(s: Seq<char>)
    ensures
        comma_pieces(s).len() >= 1,
    decreases s.len(),
{
    if s.len() > 0 {
        lemma_comma_pieces_len(s.drop_last());
    }
}

/// The tags of a CSV field: the comma-separated pieces, trimmed, without the empty ones.
pub open spec fn csv_tags(s: Seq<char>) -> Seq<Seq<char>> {
    comma_pieces(s).map_values(|t: Seq<char>| trim_of(t)).filter(|t: Seq<char>| t.len() > 0)
}

/// Splits a comma-separated field into trimmed, non-empty pieces.
pub fn split_tags(raw: &str) -> (r: Vec<String>)
    ensures
        texts(r@) == csv_tags(raw@),
{
    let n = raw.unicode_len();
    let mut pieces: Vec<String> = Vec::new();
    let mut start: usize = 0;
    let mut i: usize = 0;
    assert(raw@.take(0) =~= Seq::<char>::empty());
    assert(raw@.subrange(0, 0) =~= Seq::<char>::empty());
    while i < n
        invariant
            n == raw@.len(),
            start <= i <= n,
            comma_pieces(raw@.take(i as int)) == texts(pieces@).push(raw@.subrange(start as int, i as int)),
        decreases n - i,
    {
        let c = raw.get_char(i);
        let ghost pv = texts(pieces@);
        assert(raw@.take(i + 1).drop_last() =~= raw@.take(i as int));
        assert(raw@.take(i + 1).last() == c);
        if c == ',' {
            let piece = raw.substring_char(start, i);
            pieces.push(String::from_str(piece));
            start = i + 1;
            assert(raw@.subrange(start as int, i + 1) =~= Seq::<char>::empty());
            assert(texts(pieces@) =~= pv.push(piece@));
        } else {
            assert(raw@.subrange(start as int, i + 1) =~= raw@.subrange(start as int, i as int).push(c));
        }
        i = i + 1;
    }
    assert(raw@.take(n as int) =~= raw@);
    let last = raw.substring_char(start, n);
    pieces.push(String::from_str(last));
    let ghost all = texts(pieces@);
    assert(all =~= comma_pieces(raw@));
    let mut out: Vec<String> = Vec::new();
    let mut k: usize = 0;
    while k < pieces.len()
        invariant
            k <= pieces.len(),
            all == texts(pieces@),
            texts(out@) == all.map_values(|t: Seq<char>| trim_of(t)).take(k as int).filter(|t: Seq<char>| t.len() > 0),
        decreases pieces.len() - k,
    {
        let ghost tr = all.map_values(|t: Seq<char>| trim_of(t));
        let ghost prev = tr.take(k as int);
        assert(tr.take(k + 1) =~= prev.push(tr[k as int]));
        proof {
            prev.lemma_filter_push(tr[k as int], |t: Seq<char>| t.len() > 0);
        }
        let t = trim_text(pieces[k].as_str());
        if t.unicode_len() > 0 {
            let ghost ov = texts(out@);
            out.push(t);
            assert(texts(out@) =~= ov.push(tr[k as int]));
        }
        k = k + 1;
    }
    assert(all.map_values(|t: Seq<char>| trim_of(t)).take(k as int) =~= all.map_values(|t: Seq<char>| trim_of(t)));
    out
}

/// The parts of a CSV record: priority, repeat and flags read as words, unreadable ones
/// dropped, and the tag field split at commas.
pub open spec fn csv_parts(row: CsvRow, x: TaskParts) -> bool {
    &&& x.title@ == row.title@
    &&& opt_text(x.uid) == opt_text(row.uid)
    &&& opt_text(x.content) == opt_text(row.content)
    &&& texts(x.tags@) == match row.tags {
        Some(t) => csv_tags(t@),
        None => Seq::empty(),
    }
    &&& opt_text(x.due) == opt_text(row.due)
    &&& x.priority == match row.priority {
        Some(s) => priority_word(lower_of(trim_of(s@))),
        None => None,
    }
    &&& x.repeat == match row.repeat {
        Some(s) => repeat_word(lower_of(trim_of(s@))),
        None => None,
    }
    &&& opt_text(x.branch) == opt_text(row.branch)
    &&& x.done == match row.done {
        Some(s) => bool_word(lower_of(trim_of(s@))),
        None => None,
    }
    &&& x.archived == match row.archived {
        Some(s) => bool_word(lower_of(trim_of(s@))),
        None => None,
    }
    &&& opt_text(x.created_at) == opt_text(row.created_at)
}

/// The rows of a JSON import as parts: each with a title becomes parts, the others nothing.
pub open spec fn json_rows_parts(rows: Seq<JsonRow>, parts: Seq<Option<TaskParts>>) -> bool {
    rows.len() == parts.len() && forall|k: int| 0 <= k < rows.len() ==> json_parts(#[trigger] rows[k], parts[k])
}

/// The rows of a CSV import as parts: unreadable records become nothing.
pub open spec fn csv_rows_parts(rows: Seq<Option<CsvRow>>, parts: Seq<Option<TaskParts>>) -> bool {
    &&& rows.len() == parts.len()
    &&& forall|k: int|
        0 <= k < rows.len() ==> match #[trigger] rows[k] {
            None => parts[k] is None,
            Some(row) => parts[k] matches Some(x) && csv_parts(row, x),
        }
}

/// What importing the parts `parts` into `before` makes, and the counts it reports.
pub open spec fn import_outcome(
    before: Seq<TaskView>,
    after: Seq<TaskView>,
    parts: Seq<Option<TaskParts>>,
    branch: Seq<char>,
    config: AppConfig,
    today: Date,
    stamp: Seq<char>,
    imported: int,
    skipped: int,
    missing: int,
    blank: int,
) -> bool {
    let st = import_fold(
        import_start(before, branch, config.id_scope),
        parts,
        branch,
        config.id_scope,
        today,
        stamp,
    );
    &&& after.len() == st.tasks.len()
    &&& forall|k: int| 0 <= k < before.len() ==> #[trigger] after[k] == before[k]
    &&& forall|k: int|
        before.len() <= k < st.tasks.len() ==> uid_filled(st.tasks[k], #[trigger] after[k], config.use_uuid)
    &&& imported == st.imported && skipped == st.skipped && missing == st.missing
    &&& blank == st.blank
}

/// What an import of `parts` reports: under JSON, rows without a title or with a blank one
/// count as missing titles and nothing fails to parse; under CSV, unreadable records count as
/// parse failures and blank titles as missing titles.
pub open spec fn import_report(
    before: Seq<TaskView>,
    after: Seq<TaskView>,
    parts: Seq<Option<TaskParts>>,
    branch: Seq<char>,
    config: AppConfig,
    today: Date,
    stamp: Seq<char>,
    r: ImportResult,
    json: bool,
) -> bool {
    let st = import_fold(
        import_start(before, branch, config.id_scope),
        parts,
        branch,
        config.id_scope,
        today,
        stamp,
    );
    &&& import_outcome(before, after, parts, branch, config, today, stamp, st.imported, st.skipped, st.missing, st.blank)
    &&& r.imported == st.imported
    &&& r.skipped == st.skipped
    &&& if json {
        r.skipped_title == st.missing + st.blank && r.skipped_parse == 0
    } else {
        r.skipped_title == st.blank && r.skipped_parse == st.missing
    }
}

/// Imports the objects of a JSON file: objects without a title, or with a blank one, are
/// skipped and counted as such; rows go to their own branch or to `branch`.
pub fn import_json(
    tasks: &mut Vec<Task>,
    rows: Vec<JsonRow>,
    branch: &str,
    config: &AppConfig,
    clock: &Clock,
) -> (r: ImportResult)
    requires
        id_room(task_views(old(tasks)@)),
        rows@.len() < ID_LIMIT,
        clock.today.wf(),
    ensures
        exists|parts: Seq<Option<TaskParts>>|
            json_rows_parts(rows@, parts) && import_report(
                task_views(old(tasks)@),
                task_views(final(tasks)@),
                parts,
                branch@,
                *config,
                clock.today,
                clock.timestamp@,
                r,
                true,
            ),
{
    let ghost src = rows@;
    let total = rows.len();
    let mut parts: Vec<Option<TaskParts>> = Vec::new();
    let mut rest = rows;
    let mut i: usize = 0;
    while rest.len() > 0
        invariant
            total == src.len(),
            rest@ == src.skip(i as int),
            i + rest@.len() == src.len(),
            parts@.len() == i,
            forall|k: int| 0 <= k < i ==> json_parts(#[trigger] src[k], parts@[k]),
        decreases rest@.len(),
    {
        let row = rest.remove(0);
        assert(row == src[i as int]);
        assert(rest@ =~= src.skip(i + 1));
        let p = match row.title {
            None => None,
            Some(title) => Some(
                TaskParts {
                    uid: row.uid,
                    title,
                    content: row.content,
                    tags: match row.tags {
                        Some(v) => v,
                        None => Vec::new(),
                    },
                    due: row.due,
                    priority: row.priority,
                    repeat: row.repeat,
                    branch: row.branch,
                    done: row.done,
                    archived: row.archived,
                    created_at: row.created_at,
                },
            ),
        };
        proof {
            if p is Some && src[i as int].tags is None {
                assert(texts(p->0.tags@) =~= Seq::<Seq<char>>::empty());
            }
        }
        parts.push(p);
        i = i + 1;
    }
    let ghost pv = parts@;
    assert(json_rows_parts(src, pv));
    let (imported, skipped, missing, blank) = import_parts(tasks, parts, branch, config, clock);
    ImportResult { imported, skipped, skipped_title: missing + blank, skipped_parse: 0 }
}

fn read_word_flag(s: &Option<String>) -> (r: Option<bool>)
    ensures
        r == match s {
            Some(x) => bool_word(lower_of(trim_of(x@))),
            None => None,
        },
{
    match s {
        Some(x) => parse_bool_flag(x.as_str()),
        None => None,
    }
}

/// Imports the records of a CSV file: unreadable records (`None`) and records with a blank
/// title are skipped and counted apart; rows go to their own branch or to `branch`.
pub fn import_csv(
    tasks: &mut Vec<Task>,
    rows: Vec<Option<CsvRow>>,
    branch: &str,
    config: &AppConfig,
    clock: &Clock,
) -> (r: ImportResult)
    requires
        id_room(task_views(old(tasks)@)),
        rows@.len() < ID_LIMIT,
        clock.today.wf(),
    ensures
        exists|parts: Seq<Option<TaskParts>>|
            csv_rows_parts(rows@, parts) && import_report(
                task_views(old(tasks)@),
                task_views(final(tasks)@),
                parts,
                branch@,
                *config,
                clock.today,
                clock.timestamp@,
                r,
                false,
            ),
{
    let ghost src = rows@;
    let total = rows.len();
    let mut parts: Vec<Option<TaskParts>> = Vec::new();
    let mut rest = rows;
    let mut i: usize = 0;
    while rest.len() > 0
        invariant
            total == src.len(),
            rest@ == src.skip(i as int),
            i + rest@.len() == src.len(),
            parts@.len() == i,
            forall|k: int|
                0 <= k < i ==> match #[trigger] src[k] {
                    None => parts@[k] is None,
                    Some(row) => parts@[k] matches Some(x) && csv_parts(row, x),
                },
        decreases rest@.len(),
    {
        let row = rest.remove(0);
        assert(row == src[i as int]);
        assert(rest@ =~= src.skip(i + 1));
        let p = match row {
            None => None,
            Some(row) => {
                let priority = match &row.priority {
                    Some(s) => match Priority::parse(s.as_str()) {
                        Ok(x) => Some(x),
                        Err(_) => None,
                    },
                    None => None,
                };
                let repeat = match &row.repeat {
                    Some(s) => match Repeat::parse(s.as_str()) {
                        Ok(x) => Some(x),
                        Err(_) => None,
                    },
                    None => None,
                };
                let done = read_word_flag(&row.done);
                let archived = read_word_flag(&row.archived);
                let tags = match &row.tags {
                    Some(raw) => split_tags(raw.as_str()),
                    None => Vec::new(),
                };
                proof {
                    if row.tags is None {
                        assert(texts(tags@) =~= Seq::<Seq<char>>::empty());
                    }
                }
                Some(
                    TaskParts {
                        uid: row.uid,
                        title: row.title,
                        content: row.content,
                        tags,
                        due: row.due,
                        priority,
                        repeat,
                        branch: row.branch,
                        done,
                        archived,
                        created_at: row.created_at,
                    },
                )
            },
        };
        parts.push(p);
        i = i + 1;
    }
    let ghost pv = parts@;
    assert(csv_rows_parts(src, pv));
    let (imported, skipped, missing, blank) = import_parts(tasks, parts, branch, config, clock);
    ImportResult { imported, skipped, skipped_title: blank, skipped_parse: missing }
}

} // verus!
