use tasklist::branch::{
    branch_matches, branch_pair, collect_branches, deletable_branch, is_default_branch,
    normalize_branch, normalize_state, order_branches, BranchError,
};
use tasklist::commands::{
    apply_profile_changes, archive_done_all, archive_done_branch, clear_done, resolve_desc,
    update_config, ProfileChanges,
};
use tasklist::date::{parse_due, Clock, Date};
use tasklist::layout::{
    center_in_width, center_line, column_header, column_width, fit_columns, pad_right,
    truncate_to_width,
};
use tasklist::model::{
    default_branch, default_list_columns, priority_rank, AppConfig, AppState, IdScope, ListColumn,
    Priority, Repeat, SortKey, Task,
};
use tasklist::saved::{check_alias, expand_saved_command_args, find_alias, AliasError};
use tasklist::summary::{reminder_groups, task_summary_all, task_summary_current_branch};
use tasklist::text::{normalize_tag, parse_bool_flag};

fn day(year: i32, month: u32, day: u32) -> Date {
    Date { year, month, day }
}

fn task(id: u64, branch: &str) -> Task {
    Task {
        id,
        uid: None,
        title: format!("task {id}"),
        content: None,
        tags: Vec::new(),
        due: None,
        priority: None,
        repeat: None,
        branch: branch.to_string(),
        archived: false,
        done: false,
        created_at: String::new(),
    }
}

fn strings(v: &[&str]) -> Vec<String> {
    v.iter().map(|s| s.to_string()).collect()
}

#[test]
fn parse_due_rejects_april_31() {
    let r = parse_due("31042024", day(2024, 1, 10));
    assert_eq!(r, Err("expected DDMMYYYY like 18022026".to_string()));
}

#[test]
fn parse_due_accepted_forms() {
    let today = day(2024, 2, 28);
    assert_eq!(parse_due(" Today ", today), Ok(today));
    assert_eq!(parse_due("TOMORROW", today), Ok(day(2024, 2, 29)));
    assert_eq!(parse_due("2024-12-05", today), Ok(day(2024, 12, 5)));
    assert_eq!(parse_due("18022026", today), Ok(day(2026, 2, 18)));
    assert_eq!(
        parse_due("next week", today),
        Err("expected today|tomorrow|YYYY-MM-DD|DDMMYYYY".to_string())
    );
    assert_eq!(parse_due("tomorrow", day(262142, 12, 31)), Err("date overflow".to_string()));
}

#[test]
fn clock_reads_a_real_day() {
    let c = Clock::now();
    assert!((1..=12).contains(&c.today.month));
    assert!(c.today.day >= 1 && c.today.day <= 31);
    assert!(!c.timestamp.is_empty());
}

#[test]
fn enum_words_parse_any_case() {
    assert_eq!(Priority::parse(" HIGH "), Ok(Priority::High));
    assert_eq!(Priority::parse("urgent"), Err("expected low|medium|high".to_string()));
    assert_eq!(Repeat::parse("Weekly"), Ok(Repeat::Weekly));
    assert_eq!(Repeat::parse("yearly"), Err("expected daily|weekly|monthly".to_string()));
    assert_eq!("monthly".parse::<Repeat>(), Ok(Repeat::Monthly));
}

#[test]
fn bool_flags() {
    assert_eq!(parse_bool_flag(" Yes"), Some(true));
    assert_eq!(parse_bool_flag("0"), Some(false));
    assert_eq!(parse_bool_flag("N"), Some(false));
    assert_eq!(parse_bool_flag("maybe"), None);
}

#[test]
fn tag_normalisation() {
    assert_eq!(normalize_tag("  MiXed "), Some("mixed".to_string()));
    assert_eq!(normalize_tag("   "), None);
}

#[test]
fn ranks() {
    assert_eq!(priority_rank(Some(Priority::High)), 0);
    assert_eq!(priority_rank(Some(Priority::Medium)), 1);
    assert_eq!(priority_rank(Some(Priority::Low)), 2);
    assert_eq!(priority_rank(None), 3);
}

#[test]
fn defaults() {
    assert_eq!(default_branch(), "personal");
    assert_eq!(default_list_columns(), vec![ListColumn::Due, ListColumn::Priority]);
    let c = AppConfig::default();
    assert_eq!(c.default_sort, SortKey::Due);
    assert_eq!(c.id_scope, IdScope::Global);
    assert!(c.color && !c.use_uuid && !c.default_desc);
    let s = AppState::default();
    assert_eq!(s.current_branch, "personal");
    assert_eq!(s.profile.day_start_hour, 6);
}

#[test]
fn branch_names() {
    assert_eq!(normalize_branch(Some("  Work  ".to_string())), Some("Work".to_string()));
    assert_eq!(normalize_branch(Some("   ".to_string())), None);
    assert_eq!(normalize_branch(None), None);
    assert!(is_default_branch("PERSONAL"));
    assert!(!is_default_branch("work"));
    assert!(branch_matches(&task(1, "Work"), Some("wORK")));
    assert!(!branch_matches(&task(1, "Work"), None));
    let mut state = AppState::default();
    state.current_branch = "   ".to_string();
    normalize_state(&mut state);
    assert_eq!(state.current_branch, "personal");
}

#[test]
fn branch_listing_order() {
    let tasks = vec![task(1, "work"), task(2, "Home"), task(3, "work"), task(4, "alpha")];
    let mut names = collect_branches(&tasks);
    assert_eq!(names, strings(&["Home", "alpha", "work"]));
    order_branches(&mut names, "WORK");
    assert_eq!(names, strings(&["work", "alpha", "Home"]));
}

#[test]
fn archiving_and_clearing() {
    let mut a = task(1, "home");
    a.done = true;
    let mut b = task(2, "work");
    b.done = true;
    let mut tasks = vec![a, b, task(3, "home")];
    assert_eq!(archive_done_branch(&mut tasks, "HOME"), 1);
    assert_eq!(archive_done_branch(&mut tasks, "home"), 0);
    assert_eq!(archive_done_all(&mut tasks), 1);
    assert_eq!(clear_done(&mut tasks), 2);
    assert_eq!(tasks.len(), 1);
}

#[test]
fn settings() {
    assert!(!resolve_desc(true, true, true));
    assert!(resolve_desc(true, false, false));
    assert!(resolve_desc(false, false, true));
    let mut c = AppConfig::default();
    assert!(!update_config(&mut c, None, None, None, None, None, None));
    assert!(update_config(&mut c, Some(SortKey::Id), None, Some(false), Some(3), Some(IdScope::Branch), None));
    assert_eq!((c.default_sort, c.color, c.reminder_days, c.id_scope), (SortKey::Id, false, 3, IdScope::Branch));
}

#[test]
fn widths_and_padding() {
    assert_eq!(truncate_to_width("abcdef", 4), "abc…");
    assert_eq!(truncate_to_width("abc", 4), "abc");
    assert_eq!(truncate_to_width("abc", 1), "…");
    assert_eq!(truncate_to_width("abc", 0), "");
    assert_eq!(pad_right("ab", 4), "ab  ");
    assert_eq!(pad_right("abcdef", 3), "abc");
    assert_eq!(center_line("ab", 6), "  ab");
    assert_eq!(center_line("abcdef", 3), "abcdef");
    assert_eq!(center_in_width("ab", 7), "  ab   ");
    assert_eq!(center_in_width("abcdef", 3), "abc");
    assert_eq!(column_width(ListColumn::Tags), 18);
    assert_eq!(column_header(ListColumn::Content), "Note");
}

#[test]
fn columns_fit_terminal() {
    let cols = vec![ListColumn::Due, ListColumn::Priority, ListColumn::Content];
    assert_eq!(fit_columns(80, &cols), cols);
    assert_eq!(fit_columns(50, &cols), vec![ListColumn::Due, ListColumn::Priority]);
    assert_eq!(fit_columns(20, &cols), Vec::<ListColumn>::new());
}

#[test]
fn summaries_and_reminders() {
    let today = day(2024, 1, 10);
    let mut a = task(1, "home");
    a.due = Some(day(2024, 1, 9));
    let mut b = task(2, "home");
    b.due = Some(today);
    let mut c = task(3, "home");
    c.due = Some(day(2024, 1, 12));
    let mut d = task(4, "home");
    d.due = Some(day(2024, 1, 30));
    let mut e = task(5, "work");
    e.done = true;
    let tasks = vec![a, b, c, d, e];
    assert_eq!(task_summary_current_branch(&tasks, "HOME", today), (4, 1, 1));
    assert_eq!(task_summary_all(&tasks, today), (4, 1, 1));
    let (over, now, soon) = reminder_groups(&tasks, "home", &[], 3, today);
    assert_eq!((over, now, soon), (vec![0], vec![1], vec![2]));
    let (_, _, none) = reminder_groups(&tasks, "home", &[], 0, today);
    assert!(none.is_empty());
}

#[test]
fn saved_alias_expansion() {
    let mut state = AppState::default();
    state.profile.saved_commands = vec![
        ("Today".to_string(), strings(&["list", "--group-by", "due-day"])),
        ("empty".to_string(), Vec::new()),
    ];
    let reserved = strings(&["list", "help"]);
    let raw = strings(&["prog", "today", "--all"]);
    assert_eq!(
        expand_saved_command_args(&raw, &state, &reserved),
        strings(&["prog", "list", "--group-by", "due-day", "--all"])
    );
    let raw = strings(&["prog", "EMPTY"]);
    assert_eq!(expand_saved_command_args(&raw, &state, &reserved), raw);
    let raw = strings(&["prog", "-v"]);
    assert_eq!(expand_saved_command_args(&raw, &state, &reserved), raw);
    let raw = strings(&["prog", "List"]);
    assert_eq!(expand_saved_command_args(&raw, &state, &reserved), raw);
}

#[test]
fn statistics_counts() {
    let today = day(2024, 1, 10);
    let mut a = task(1, "home");
    a.due = Some(day(2024, 1, 1));
    let mut b = task(2, "Home");
    b.done = true;
    b.repeat = Some(Repeat::Daily);
    let mut c = task(3, "work");
    c.archived = true;
    c.due = Some(today);
    let mut d = task(4, "work");
    d.due = Some(today);
    let tasks = vec![a, b, c, d];
    let s = tasklist::summary::task_stats(&tasks, today);
    assert_eq!((s.total, s.done, s.overdue, s.due_today, s.archived, s.repeating), (4, 1, 1, 1, 1, 1));
    assert_eq!(tasklist::summary::branch_counts(&tasks, "HOME"), (2, 1, 0));
}

#[test]
fn alias_names_checked() {
    let reserved = strings(&["list"]);
    let args = strings(&["list"]);
    assert_eq!(check_alias("  today ", &args, &reserved), Ok("today".to_string()));
    assert_eq!(check_alias("   ", &args, &reserved), Err(AliasError::EmptyName));
    assert_eq!(check_alias("-x", &args, &reserved), Err(AliasError::LeadingDash));
    assert_eq!(check_alias("LIST", &args, &reserved), Err(AliasError::Reserved));
    assert_eq!(check_alias("mine", &[], &reserved), Err(AliasError::NoCommand));
    let saved = vec![("Alpha".to_string(), args.clone()), ("beta".to_string(), args)];
    assert_eq!(find_alias(&saved, "BETA"), Some(1));
    assert_eq!(find_alias(&saved, "gamma"), None);
}

#[test]
fn branch_arguments_checked() {
    assert_eq!(
        branch_pair(" home ".to_string(), "work".to_string()),
        Ok(("home".to_string(), "work".to_string()))
    );
    assert_eq!(branch_pair(" ".to_string(), "work".to_string()), Err(BranchError::InvalidSource));
    assert_eq!(branch_pair("home".to_string(), "".to_string()), Err(BranchError::InvalidTarget));
    assert_eq!(branch_pair("Home".to_string(), "HOME".to_string()), Err(BranchError::SameBranch));
    assert_eq!(deletable_branch("Personal".to_string(), 0, true), Err(BranchError::DefaultBranch));
    assert_eq!(deletable_branch("work".to_string(), 2, false), Err(BranchError::NotEmpty));
    assert_eq!(deletable_branch(" work ".to_string(), 2, true), Ok("work".to_string()));
    assert_eq!(deletable_branch("  ".to_string(), 0, false), Err(BranchError::InvalidSource));
}

#[test]
fn profile_changes_apply() {
    use_profile_changes();
}

fn use_profile_changes() {
    let mut p = AppState::default().profile;
    let changes = ProfileChanges {
        name: Some("  Sam ".to_string()),
        clear_name: true,
        message: Some("   ".to_string()),
        clear_message: false,
        daily_greeting: Some(false),
        day_start_hour: Some(7),
        greeting_style: None,
        greeting_summary: None,
        summary_scope: None,
        encouragement: None,
        pronouns: None,
        clear_pronouns: false,
        list_view: None,
        columns: vec![ListColumn::Tags, ListColumn::Due, ListColumn::Tags],
        columns_default: false,
        auto_pager: None,
        reset_greeting: false,
    };
    assert_eq!(apply_profile_changes(&mut p, changes), Ok(true));
    assert_eq!(p.name.as_deref(), Some("Sam"));
    assert_eq!(p.daily_message, None);
    assert!(!p.daily_greeting);
    assert_eq!(p.day_start_hour, 7);
    assert_eq!(p.list_columns, vec![ListColumn::Tags, ListColumn::Due]);
    let bad = ProfileChanges {
        name: None,
        clear_name: true,
        message: None,
        clear_message: false,
        daily_greeting: None,
        day_start_hour: Some(24),
        greeting_style: None,
        greeting_summary: None,
        summary_scope: None,
        encouragement: None,
        pronouns: None,
        clear_pronouns: false,
        list_view: None,
        columns: Vec::new(),
        columns_default: false,
        auto_pager: None,
        reset_greeting: false,
    };
    assert_eq!(
        apply_profile_changes(&mut p, bad),
        Err("day-start-hour must be between 0 and 23".to_string())
    );
    assert_eq!(p.name.as_deref(), Some("Sam"));
}

#[test]
fn greeting_once_a_day() {
    let mut p = AppState::default().profile;
    assert!(p.greeting_due(day(2024, 1, 10)));
    p.last_greeted = Some(day(2024, 1, 10));
    assert!(!p.greeting_due(day(2024, 1, 10)));
    assert!(p.greeting_due(day(2024, 1, 11)));
    p.daily_greeting = false;
    assert!(!p.greeting_due(day(2024, 1, 11)));
    assert_eq!(tasklist::model::salutation(9), "Good morning");
    assert_eq!(tasklist::model::salutation(12), "Good afternoon");
    assert_eq!(tasklist::model::salutation(18), "Good evening");
}
