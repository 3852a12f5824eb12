use tasklist::commands::{
    create_task, delete_by_id, done_by_id, duplicate_branch, edit_by_id, follow_branch,
    move_branch, set_flag_by_id, toggle_by_id, EditError, EditOpts, TaskFlag,
};
use tasklist::date::{advance_due, parse_due, Clock, Date};
use tasklist::import::{import_csv, import_json, split_tags, CsvRow, JsonRow};
use tasklist::model::{AppConfig, IdScope, Priority, Repeat, SortKey, Task};
use tasklist::ops::{
    bulk_delete, bulk_edit, bulk_move, bulk_set_done, next_task_id, task_matches, BulkEditOpts,
};
use tasklist::sort::sort_tasks;
use tasklist::text::normalize_tags;

fn day(year: i32, month: u32, day: u32) -> Date {
    Date { year, month, day }
}

fn clock() -> Clock {
    Clock { today: day(2024, 1, 10), timestamp: "2024-01-10T09:00:00+00:00".to_string() }
}

fn task(id: u64, title: &str, branch: &str) -> Task {
    Task {
        id,
        uid: None,
        title: title.to_string(),
        content: None,
        tags: Vec::new(),
        due: None,
        priority: None,
        repeat: None,
        branch: branch.to_string(),
        archived: false,
        done: false,
        created_at: "2024-01-01T00:00:00+00:00".to_string(),
    }
}

fn config(scope: IdScope, use_uuid: bool) -> AppConfig {
    AppConfig { id_scope: scope, use_uuid, ..AppConfig::default() }
}

fn strings(v: &[&str]) -> Vec<String> {
    v.iter().map(|s| s.to_string()).collect()
}

#[test]
fn create_buy_milk_due_today_high() {
    let mut tasks: Vec<Task> = Vec::new();
    let c = clock();
    let due = parse_due("today", c.today).unwrap();
    let id = create_task(
        &mut tasks,
        "Buy milk".to_string(),
        None,
        &[],
        Some(due),
        Some(Priority::High),
        None,
        None,
        "personal",
        &config(IdScope::Global, false),
        &c,
    );
    assert_eq!(id, Some(1));
    assert_eq!(tasks.len(), 1);
    assert!(!tasks[0].done);
    assert_eq!(tasks[0].due, Some(day(2024, 1, 10)));
    assert_eq!(tasks[0].priority, Some(Priority::High));
    assert_eq!(tasks[0].branch, "personal");
    assert_eq!(tasks[0].created_at, c.timestamp);
    assert!(tasks[0].uid.is_none());
}

#[test]
fn create_refuses_blank_title() {
    let mut tasks: Vec<Task> = Vec::new();
    let id = create_task(
        &mut tasks,
        "   ".to_string(),
        None,
        &[],
        None,
        None,
        None,
        Some("work".to_string()),
        "personal",
        &config(IdScope::Branch, true),
        &clock(),
    );
    assert_eq!(id, None);
    assert!(tasks.is_empty());
}

#[test]
fn done_daily_repeat_spawns_next_day() {
    let mut t = task(1, "Water plants", "personal");
    t.repeat = Some(Repeat::Daily);
    t.due = Some(day(2024, 1, 10));
    t.uid = Some("first".to_string());
    let mut tasks = vec![t];
    assert!(done_by_id(&mut tasks, 1, IdScope::Global, true, &clock()));
    assert_eq!(tasks.len(), 2);
    assert!(tasks[0].done);
    assert_eq!(tasks[1].due, Some(day(2024, 1, 11)));
    assert!(!tasks[1].done);
    assert_eq!(tasks[1].id, 2);
    let uid = tasks[1].uid.clone().unwrap();
    assert_ne!(uid, "first");
    assert_eq!(uid.len(), 36);
}

#[test]
fn done_twice_spawns_once() {
    let mut t = task(1, "Water plants", "personal");
    t.repeat = Some(Repeat::Daily);
    let mut tasks = vec![t];
    assert!(done_by_id(&mut tasks, 1, IdScope::Global, false, &clock()));
    assert!(done_by_id(&mut tasks, 1, IdScope::Global, false, &clock()));
    assert_eq!(tasks.len(), 2);
    assert_eq!(tasks[1].due, Some(day(2024, 1, 11)));
}

#[test]
fn done_missing_id_reports_false() {
    let mut tasks = vec![task(1, "a", "personal")];
    assert!(!done_by_id(&mut tasks, 9, IdScope::Global, false, &clock()));
    assert!(!tasks[0].done);
}

#[test]
fn weekly_successor_is_seven_days_later_with_higher_id() {
    let mut t = task(3, "Report", "work");
    t.repeat = Some(Repeat::Weekly);
    t.due = Some(day(2024, 2, 26));
    let mut tasks = vec![task(5, "other", "work"), t, task(9, "elsewhere", "home")];
    assert!(done_by_id(&mut tasks, 3, IdScope::Branch, false, &clock()));
    assert_eq!(tasks.len(), 4);
    assert_eq!(tasks[3].due, Some(day(2024, 3, 4)));
    assert!(!tasks[3].done);
    assert_eq!(tasks[3].id, 6);
    assert_eq!(tasks[3].branch, "work");
}

#[test]
fn monthly_advance_clamps_to_month_end() {
    assert_eq!(advance_due(day(2024, 1, 31), Repeat::Monthly), Some(day(2024, 2, 29)));
    assert_eq!(advance_due(day(2023, 12, 15), Repeat::Monthly), Some(day(2024, 1, 15)));
    assert_eq!(advance_due(day(2024, 12, 31), Repeat::Daily), Some(day(2025, 1, 1)));
    assert_eq!(advance_due(day(262142, 12, 31), Repeat::Daily), None);
    assert_eq!(advance_due(day(262142, 12, 31), Repeat::Monthly), None);
}

#[test]
fn toggle_reopens_done_task() {
    let mut t = task(1, "a", "personal");
    t.done = true;
    let mut tasks = vec![t];
    assert!(toggle_by_id(&mut tasks, 1, IdScope::Global, false, &clock()));
    assert!(!tasks[0].done);
    assert!(toggle_by_id(&mut tasks, 1, IdScope::Global, false, &clock()));
    assert!(tasks[0].done);
}

#[test]
fn flags_and_delete_by_id() {
    let mut tasks = vec![task(1, "a", "personal"), task(2, "b", "personal")];
    assert!(set_flag_by_id(&mut tasks, 2, TaskFlag::Archived(true)));
    assert!(tasks[1].archived);
    assert!(!set_flag_by_id(&mut tasks, 7, TaskFlag::Done(true)));
    assert!(delete_by_id(&mut tasks, 1));
    assert_eq!(tasks.len(), 1);
    assert!(!delete_by_id(&mut tasks, 1));
}

#[test]
fn bulk_done_twice_counts_zero_second_time() {
    let mut tasks = vec![
        task(1, "Buy shopping list", "personal"),
        task(2, "shopping bags", "personal"),
        task(3, "shopping at work", "work"),
    ];
    let c = clock();
    let first = bulk_set_done(&mut tasks, "SHOPPING", "Personal", true, IdScope::Global, false, &c);
    assert_eq!(first, 2);
    let second = bulk_set_done(&mut tasks, "SHOPPING", "Personal", true, IdScope::Global, false, &c);
    assert_eq!(second, 0);
    assert!(!tasks[2].done);
    let undone = bulk_set_done(&mut tasks, "shopping", "personal", false, IdScope::Global, false, &c);
    assert_eq!(undone, 2);
}

#[test]
fn bulk_done_skips_archived_and_appends_successors() {
    let mut a = task(1, "pay rent", "personal");
    a.repeat = Some(Repeat::Monthly);
    a.due = Some(day(2024, 1, 31));
    let mut b = task(2, "pay fees", "personal");
    b.archived = true;
    let mut tasks = vec![a, b];
    let n = bulk_set_done(&mut tasks, "pay", "personal", true, IdScope::Global, false, &clock());
    assert_eq!(n, 1);
    assert_eq!(tasks.len(), 3);
    assert_eq!(tasks[2].due, Some(day(2024, 2, 29)));
    assert_eq!(tasks[2].id, 3);
    assert!(!tasks[1].done);
}

#[test]
fn bulk_edit_clear_tags_wins_over_added_tag() {
    let mut t = task(1, "weekly shopping", "personal");
    t.tags = strings(&["food", "shopping"]);
    let mut tasks = vec![t, task(2, "laundry", "personal")];
    let opts = BulkEditOpts {
        due: None,
        priority: None,
        repeat: None,
        clear_due: false,
        clear_priority: false,
        clear_repeat: false,
        tags: strings(&["urgent"]),
        remove_tags: Vec::new(),
        clear_tags: true,
    };
    let n = bulk_edit(&mut tasks, "shopping", "personal", &opts, day(2024, 1, 10)).unwrap();
    assert_eq!(n, 1);
    assert!(tasks[0].tags.is_empty());
}

#[test]
fn bulk_edit_adds_and_removes_tags() {
    let mut t = task(1, "weekly shopping", "personal");
    t.tags = strings(&["food", "shopping"]);
    let mut tasks = vec![t];
    let opts = BulkEditOpts {
        due: Some("2024-03-01".to_string()),
        priority: Some(Priority::Low),
        repeat: None,
        clear_due: false,
        clear_priority: false,
        clear_repeat: true,
        tags: strings(&[" Urgent ", "FOOD"]),
        remove_tags: strings(&["Shopping"]),
        clear_tags: false,
    };
    let n = bulk_edit(&mut tasks, "shop", "personal", &opts, day(2024, 1, 10)).unwrap();
    assert_eq!(n, 1);
    assert_eq!(tasks[0].tags, strings(&["food", "urgent"]));
    assert_eq!(tasks[0].due, Some(day(2024, 3, 1)));
    assert_eq!(tasks[0].priority, Some(Priority::Low));
}

#[test]
fn bulk_edit_counts_only_real_changes() {
    let mut t = task(1, "shopping", "personal");
    t.priority = Some(Priority::High);
    let mut tasks = vec![t];
    let mut opts = BulkEditOpts {
        due: None,
        priority: Some(Priority::High),
        repeat: None,
        clear_due: true,
        clear_priority: false,
        clear_repeat: false,
        tags: Vec::new(),
        remove_tags: Vec::new(),
        clear_tags: false,
    };
    assert_eq!(bulk_edit(&mut tasks, "shop", "personal", &opts, day(2024, 1, 10)), Ok(0));
    opts.clear_due = false;
    opts.priority = None;
    assert_eq!(bulk_edit(&mut tasks, "shop", "personal", &opts, day(2024, 1, 10)), Ok(0));
}

#[test]
fn bulk_edit_bad_due_changes_nothing() {
    let mut tasks = vec![task(1, "shopping", "personal")];
    let opts = BulkEditOpts {
        due: Some("31042024".to_string()),
        priority: Some(Priority::High),
        repeat: None,
        clear_due: false,
        clear_priority: false,
        clear_repeat: false,
        tags: Vec::new(),
        remove_tags: Vec::new(),
        clear_tags: false,
    };
    let r = bulk_edit(&mut tasks, "shop", "personal", &opts, day(2024, 1, 10));
    assert_eq!(r, Err("expected DDMMYYYY like 18022026".to_string()));
    assert_eq!(tasks[0].priority, None);
}

#[test]
fn bulk_delete_removes_matching_unarchived() {
    let mut a = task(2, "old note", "personal");
    a.archived = true;
    let mut tasks = vec![task(1, "note one", "personal"), a, task(3, "note", "work")];
    assert_eq!(bulk_delete(&mut tasks, "NOTE", "personal"), 1);
    assert_eq!(tasks.len(), 2);
    assert_eq!(tasks[0].id, 2);
}

#[test]
fn bulk_move_renumbers_under_branch_ids() {
    let mut tasks = vec![
        task(1, "call mom", "personal"),
        task(2, "call bank", "personal"),
        task(4, "call boss", "work"),
        task(3, "walk", "personal"),
    ];
    let n = bulk_move(&mut tasks, "call", "personal", "work", IdScope::Branch);
    assert_eq!(n, 2);
    assert_eq!((tasks[0].id, tasks[0].branch.as_str()), (5, "work"));
    assert_eq!((tasks[1].id, tasks[1].branch.as_str()), (6, "work"));
    assert_eq!(tasks[3].id, 3);
    let mut work: Vec<u64> = tasks.iter().filter(|t| t.branch == "work").map(|t| t.id).collect();
    work.sort();
    work.dedup();
    assert_eq!(work.len(), 3);
}

#[test]
fn branch_move_gives_sequential_ids_and_moves_current() {
    let mut tasks = vec![
        task(1, "a", "personal"),
        task(2, "b", "personal"),
        task(3, "c", "Personal"),
    ];
    let moved = move_branch(&mut tasks, "personal", "work", IdScope::Branch);
    assert_eq!(moved, 3);
    let ids: Vec<u64> = tasks.iter().map(|t| t.id).collect();
    assert_eq!(ids, vec![1, 2, 3]);
    assert!(tasks.iter().all(|t| t.branch == "work"));
    let mut current = "personal".to_string();
    assert!(follow_branch(&mut current, "personal", "work"));
    assert_eq!(current, "work");
}

#[test]
fn duplicate_branch_stamps_copies() {
    let mut tasks = vec![task(1, "a", "home"), task(1, "b", "work")];
    let c = clock();
    let n = duplicate_branch(&mut tasks, "home", "work", IdScope::Branch, true, &c);
    assert_eq!(n, 1);
    assert_eq!(tasks.len(), 3);
    assert_eq!(tasks[2].id, 2);
    assert_eq!(tasks[2].branch, "work");
    assert_eq!(tasks[2].created_at, c.timestamp);
    assert!(tasks[2].uid.is_some());
    assert_ne!(tasks[2].uid, tasks[0].uid);
    assert_eq!(tasks[0].branch, "home");
}

#[test]
fn next_id_by_scope() {
    let tasks = vec![task(4, "a", "home"), task(7, "b", "work"), task(2, "c", "HOME")];
    assert_eq!(next_task_id(&tasks, IdScope::Global, Some("home")), 8);
    assert_eq!(next_task_id(&tasks, IdScope::Branch, Some("home")), 5);
    assert_eq!(next_task_id(&tasks, IdScope::Branch, Some("none")), 1);
    assert_eq!(next_task_id(&[], IdScope::Global, None), 1);
}

#[test]
fn query_matches_title_or_content_any_case() {
    let mut t = task(1, "Call BANK", "personal");
    t.content = Some("About the LOAN".to_string());
    assert!(task_matches(&t, "bank"));
    assert!(task_matches(&t, "loan"));
    assert!(!task_matches(&t, "rent"));
}

#[test]
fn edit_by_id_sets_and_clears() {
    let mut t = task(1, "old", "personal");
    t.tags = strings(&["b", "a", "b"]);
    t.priority = Some(Priority::Low);
    let mut tasks = vec![t];
    let opts = EditOpts {
        title: Some("new".to_string()),
        content: Some("note".to_string()),
        tags: Vec::new(),
        remove_tags: Vec::new(),
        due: Some("tomorrow".to_string()),
        priority: None,
        repeat: Some(Repeat::Weekly),
        clear_content: false,
        clear_tags: false,
        clear_due: false,
        clear_priority: true,
        clear_repeat: false,
        branch: Some("  work ".to_string()),
    };
    assert!(!opts.is_empty());
    assert_eq!(edit_by_id(&mut tasks, 1, opts, IdScope::Global, day(2024, 1, 10)), Ok(true));
    let t = &tasks[0];
    assert_eq!(t.title, "new");
    assert_eq!(t.content.as_deref(), Some("note"));
    assert_eq!(t.tags, strings(&["a", "b"]));
    assert_eq!(t.due, Some(day(2024, 1, 11)));
    assert_eq!(t.priority, None);
    assert_eq!(t.branch, "work");
    assert_eq!(t.id, 1);
}

#[test]
fn edit_branch_change_takes_next_free_id_under_branch_ids() {
    let mut tasks = vec![task(1, "a", "home"), task(1, "b", "work"), task(4, "c", "Work")];
    let opts = EditOpts { branch: Some("work".to_string()), ..EditOpts::nothing() };
    assert_eq!(edit_by_id(&mut tasks, 1, opts, IdScope::Branch, day(2024, 1, 10)), Ok(true));
    assert_eq!((tasks[0].id, tasks[0].branch.as_str()), (5, "work"));
    let opts = EditOpts { branch: Some("WORK".to_string()), ..EditOpts::nothing() };
    assert_eq!(edit_by_id(&mut tasks, 5, opts, IdScope::Branch, day(2024, 1, 10)), Ok(true));
    assert_eq!((tasks[0].id, tasks[0].branch.as_str()), (5, "WORK"));
}

#[test]
fn edit_refuses_blank_title_and_bad_due() {
    let mut tasks = vec![task(1, "keep", "home")];
    let opts = EditOpts { title: Some("  ".to_string()), ..EditOpts::nothing() };
    assert_eq!(
        edit_by_id(&mut tasks, 1, opts, IdScope::Global, day(2024, 1, 10)),
        Err(EditError::BlankTitle)
    );
    let opts = EditOpts {
        title: Some("new".to_string()),
        due: Some("someday".to_string()),
        ..EditOpts::nothing()
    };
    assert_eq!(
        edit_by_id(&mut tasks, 1, opts, IdScope::Global, day(2024, 1, 10)),
        Err(EditError::BadDue("expected today|tomorrow|YYYY-MM-DD|DDMMYYYY".to_string()))
    );
    assert_eq!(tasks[0].title, "keep");
    let opts = EditOpts { title: Some("x".to_string()), ..EditOpts::nothing() };
    assert_eq!(edit_by_id(&mut tasks, 9, opts, IdScope::Global, day(2024, 1, 10)), Ok(false));
}

#[test]
fn import_csv_blank_branches_get_sequential_ids() {
    let row = |title: &str| CsvRow {
        uid: None,
        title: title.to_string(),
        content: None,
        tags: Some("a, b,,A".to_string()),
        due: Some("not a date".to_string()),
        priority: Some("HIGH".to_string()),
        repeat: Some("sometimes".to_string()),
        branch: Some("   ".to_string()),
        done: Some("yes".to_string()),
        archived: None,
        created_at: None,
    };
    let mut tasks: Vec<Task> = Vec::new();
    let c = clock();
    let r = import_csv(
        &mut tasks,
        vec![Some(row("one")), None, Some(row("two")), Some(row("  "))],
        "personal",
        &config(IdScope::Branch, false),
        &c,
    );
    assert_eq!(r.imported, 2);
    assert_eq!(r.skipped, 2);
    assert_eq!(r.skipped_parse, 1);
    assert_eq!(r.skipped_title, 1);
    assert_eq!((tasks[0].id, tasks[1].id), (1, 2));
    assert_eq!(tasks[0].branch, "personal");
    assert_eq!(tasks[0].tags, strings(&["a", "b"]));
    assert_eq!(tasks[0].priority, Some(Priority::High));
    assert_eq!(tasks[0].repeat, None);
    assert_eq!(tasks[0].due, None);
    assert!(tasks[0].done);
    assert_eq!(tasks[0].created_at, c.timestamp);
}

#[test]
fn import_json_counts_missing_titles() {
    let row = |title: Option<&str>, branch: Option<&str>| JsonRow {
        uid: None,
        title: title.map(|s| s.to_string()),
        content: None,
        tags: None,
        due: Some("2024-05-06".to_string()),
        priority: None,
        repeat: None,
        branch: branch.map(|s| s.to_string()),
        done: None,
        archived: Some(true),
        created_at: Some("then".to_string()),
    };
    let mut tasks = vec![task(3, "existing", "work")];
    let r = import_json(
        &mut tasks,
        vec![row(Some("x"), Some("work")), row(None, None), row(Some("y"), Some("work"))],
        "personal",
        &config(IdScope::Branch, true),
        &clock(),
    );
    assert_eq!((r.imported, r.skipped, r.skipped_title, r.skipped_parse), (2, 1, 1, 0));
    assert_eq!((tasks[1].id, tasks[2].id), (4, 5));
    assert_eq!(tasks[1].due, Some(day(2024, 5, 6)));
    assert!(tasks[1].archived);
    assert!(tasks[1].uid.is_some());
    assert_eq!(tasks[1].created_at, "then");
}

#[test]
fn import_branch_cursor_ignores_case() {
    let row = |title: &str, branch: &str| JsonRow {
        uid: None,
        title: Some(title.to_string()),
        content: None,
        tags: None,
        due: None,
        priority: None,
        repeat: None,
        branch: Some(branch.to_string()),
        done: None,
        archived: None,
        created_at: None,
    };
    let mut tasks: Vec<Task> = Vec::new();
    let r = import_json(
        &mut tasks,
        vec![row("a", "Work"), row("b", "work"), row("   ", "WORK"), row("c", "Work")],
        "personal",
        &config(IdScope::Branch, false),
        &clock(),
    );
    assert_eq!((r.imported, r.skipped, r.skipped_title, r.skipped_parse), (3, 1, 1, 0));
    let ids: Vec<u64> = tasks.iter().map(|t| t.id).collect();
    assert_eq!(ids, vec![1, 2, 3]);
    assert_eq!(tasks[1].branch, "work");
}

#[test]
fn split_tags_trims_and_drops_empty() {
    assert_eq!(split_tags(" x ,, y,"), strings(&["x", "y"]));
    assert_eq!(split_tags(""), Vec::<String>::new());
}

#[test]
fn sort_desc_is_reverse_of_asc_for_distinct_ids() {
    let tasks = vec![task(3, "c", "p"), task(1, "a", "p"), task(2, "b", "p")];
    let mut asc: Vec<&Task> = tasks.iter().collect();
    sort_tasks(&mut asc, SortKey::Id, false);
    let mut desc: Vec<&Task> = tasks.iter().collect();
    sort_tasks(&mut desc, SortKey::Id, true);
    let a: Vec<u64> = asc.iter().rev().map(|t| t.id).collect();
    let d: Vec<u64> = desc.iter().map(|t| t.id).collect();
    assert_eq!(a, d);
    assert_eq!(d, vec![3, 2, 1]);
}

#[test]
fn priority_desc_breaks_ties_by_ascending_due() {
    let mut a = task(1, "a", "p");
    a.priority = Some(Priority::High);
    a.due = Some(day(2024, 3, 1));
    let mut b = task(2, "b", "p");
    b.priority = Some(Priority::High);
    b.due = Some(day(2024, 1, 1));
    let mut c = task(3, "c", "p");
    c.priority = Some(Priority::Low);
    let d = task(4, "d", "p");
    let tasks = vec![a, b, c, d];
    let mut view: Vec<&Task> = tasks.iter().collect();
    sort_tasks(&mut view, SortKey::Priority, true);
    let ids: Vec<u64> = view.iter().map(|t| t.id).collect();
    assert_eq!(ids, vec![3, 2, 1, 4]);
    let mut view: Vec<&Task> = tasks.iter().collect();
    sort_tasks(&mut view, SortKey::Priority, false);
    let ids: Vec<u64> = view.iter().map(|t| t.id).collect();
    assert_eq!(ids, vec![2, 1, 3, 4]);
}

#[test]
fn due_sort_puts_undated_last_both_ways() {
    let mut a = task(1, "a", "p");
    a.due = Some(day(2024, 3, 1));
    let b = task(2, "b", "p");
    let mut c = task(3, "c", "p");
    c.due = Some(day(2023, 3, 1));
    let tasks = vec![a, b, c];
    let mut view: Vec<&Task> = tasks.iter().collect();
    sort_tasks(&mut view, SortKey::Due, false);
    assert_eq!(view.iter().map(|t| t.id).collect::<Vec<u64>>(), vec![3, 1, 2]);
    sort_tasks(&mut view, SortKey::Due, true);
    assert_eq!(view.iter().map(|t| t.id).collect::<Vec<u64>>(), vec![1, 3, 2]);
}

#[test]
fn created_sort_orders_timestamps() {
    let mut a = task(1, "a", "p");
    a.created_at = "2024-02-01T00:00:00+00:00".to_string();
    let mut b = task(2, "b", "p");
    b.created_at = "2023-02-01T00:00:00+00:00".to_string();
    let tasks = vec![a, b];
    let mut view: Vec<&Task> = tasks.iter().collect();
    sort_tasks(&mut view, SortKey::Created, false);
    assert_eq!(view[0].id, 2);
    sort_tasks(&mut view, SortKey::Created, true);
    assert_eq!(view[0].id, 1);
}

#[test]
fn normalize_tags_twice_is_stable() {
    let raw = strings(&[" Work ", "home", "", "WORK", "  "]);
    let once = normalize_tags(&raw);
    assert_eq!(once, strings(&["home", "work"]));
    assert_eq!(normalize_tags(&once), once);
}

#[test]
fn due_desc_is_reverse_of_asc_for_distinct_days() {
    let mut a = task(1, "a", "p");
    a.due = Some(day(2024, 3, 1));
    let mut b = task(2, "b", "p");
    b.due = Some(day(2023, 12, 31));
    let mut c = task(3, "c", "p");
    c.due = Some(day(2024, 1, 15));
    let tasks = vec![a, b, c];
    let mut asc: Vec<&Task> = tasks.iter().collect();
    sort_tasks(&mut asc, SortKey::Due, false);
    let mut desc: Vec<&Task> = tasks.iter().collect();
    sort_tasks(&mut desc, SortKey::Due, true);
    let rev: Vec<u64> = asc.iter().rev().map(|t| t.id).collect();
    let d: Vec<u64> = desc.iter().map(|t| t.id).collect();
    assert_eq!(rev, d);
    assert_eq!(d, vec![1, 3, 2]);
}

#[test]
fn due_desc_keeps_urgency_tie_break() {
    let mut a = task(2, "a", "p");
    a.due = Some(day(2024, 3, 1));
    let mut b = task(1, "b", "p");
    b.due = Some(day(2024, 3, 1));
    b.priority = Some(Priority::High);
    let mut c = task(3, "c", "p");
    c.due = Some(day(2024, 3, 1));
    c.priority = Some(Priority::High);
    let tasks = vec![a, b, c];
    let mut view: Vec<&Task> = tasks.iter().collect();
    sort_tasks(&mut view, SortKey::Due, true);
    assert_eq!(view.iter().map(|t| t.id).collect::<Vec<u64>>(), vec![1, 3, 2]);
}
