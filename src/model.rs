//! The task record, its controlled vocabularies and the stored settings.

use vstd::prelude::*;

use crate::date::Date;
use crate::text::{lower_of, lowercase, opt_text, text_eq, texts, trim_of, trim_text};

verus! {

/// The branch that tasks fall back to.
pub const DEFAULT_BRANCH: &'static str = "personal";

/// The name of the default branch.
pub open spec fn default_branch_name() -> Seq<char> {
    "personal"@
}

/// The default branch name as an owned string.
pub fn default_branch() -> (r: String)
    ensures
        r@ == default_branch_name(),
{
    String::from_str(DEFAULT_BRANCH)
}

#[derive(Clone, Copy, Debug, PartialEq, Eq, Structural)]
pub enum ListViewStyle {
    Table,
    Compact,
    Cards,
    Classic,
}

#[derive(Clone, Copy, Debug, PartialEq, Eq, Structural)]
pub enum ListColumn {
    Due,
    Priority,
    Branch,
    Tags,
    Repeat,
    Content,
}

#[derive(Clone, Copy, Debug, PartialEq, Eq, Structural)]
pub enum GreetingStyle {
    Banner,
    Compact,
}

#[derive(Clone, Copy, Debug, PartialEq, Eq, Structural)]
pub enum SummaryScope {
    Current,
    All,
}

#[derive(Clone, Copy, Debug, PartialEq, Eq, Structural)]
pub enum EncouragementMode {
    Off,
    BuiltIn,
    CustomOnly,
}

#[derive(Clone, Copy, Debug, PartialEq, Eq, Structural)]
pub enum SortKey {
    Due,
    Priority,
    Created,
    Id,
}

#[derive(Clone, Copy, Debug, PartialEq, Eq, Structural)]
pub enum IdScope {
    Global,
    Branch,
}

#[derive(Clone, Copy, Debug, PartialEq, Eq, Structural)]
pub enum Priority {
    Low,
    Medium,
    High,
}

#[derive(Clone, Copy, Debug, PartialEq, Eq, Structural)]
pub enum Repeat {
    Daily,
    Weekly,
    Monthly,
}

/// How list views group their rows.
#[derive(Clone, Copy, Debug, PartialEq, Eq, Structural)]
pub enum GroupBy {
    /// By due day, in the table view.
    DueDay,
}

/// The formats tasks are exported in.
#[derive(Clone, Copy, Debug, PartialEq, Eq, Structural)]
pub enum ExportFormat {
    Text,
    Json,
    Markdown,
}

/// The formats tasks are imported from.
#[derive(Clone, Copy, Debug, PartialEq, Eq, Structural)]
pub enum ImportFormat {
    Json,
    Csv,
}

/// What can be done with saved command aliases.
#[derive(Clone, Debug)]
pub enum SavedCommands {
    /// Saves the arguments `args` under `name`.
    Save { name: String, args: Vec<String> },
    /// Lists the aliases.
    List,
    /// Shows one alias.
    Show { name: String },
    /// Removes one alias.
    Remove { name: String },
}

/// The columns that list views show unless the user chose others.
pub fn default_list_columns() -> (r: Vec<ListColumn>)
    ensures
        r@ == seq![ListColumn::Due, ListColumn::Priority],
{
    let mut v: Vec<ListColumn> = Vec::new();
    v.push(ListColumn::Due);
    v.push(ListColumn::Priority);
    v
}

/// Process-wide settings.
#[derive(Clone, Copy, Debug)]
pub struct AppConfig {
    pub default_sort: SortKey,
    pub default_desc: bool,
    pub color: bool,
    pub reminder_days: u32,
    pub id_scope: IdScope,
    pub use_uuid: bool,
}

impl Default for AppConfig {
    fn default() -> (r: AppConfig)
        ensures
            r == (AppConfig {
                default_sort: SortKey::Due,
                default_desc: false,
                color: true,
                reminder_days: 0,
                id_scope: IdScope::Global,
                use_uuid: false,
            }),
    {
        AppConfig {
            default_sort: SortKey::Due,
            default_desc: false,
            color: true,
            reminder_days: 0,
            id_scope: IdScope::Global,
            use_uuid: false,
        }
    }
}

/// The user's profile: greeting and list preferences, and saved command aliases.
#[derive(Clone, Debug)]
pub struct UserProfile {
    pub name: Option<String>,
    pub pronouns: Option<String>,
    pub daily_message: Option<String>,
    pub daily_greeting: bool,
    pub day_start_hour: u8,
    pub greeting_style: GreetingStyle,
    pub greeting_summary: bool,
    pub summary_scope: SummaryScope,
    pub encouragement_mode: EncouragementMode,
    pub list_view: ListViewStyle,
    pub list_columns: Vec<ListColumn>,
    pub auto_pager: bool,
    /// Saved aliases in ascending order of name: a name and the arguments it stands for.
    pub saved_commands: Vec<(String, Vec<String>)>,
    pub last_greeted: Option<Date>,
}

impl Default for UserProfile {
    fn default() -> (r: UserProfile)
        ensures
            r.name is None,
            r.pronouns is None,
            r.daily_message is None,
            r.daily_greeting,
            r.day_start_hour == 6,
            r.greeting_style == GreetingStyle::Banner,
            r.greeting_summary,
            r.summary_scope == SummaryScope::Current,
            r.encouragement_mode == EncouragementMode::BuiltIn,
            r.list_view == ListViewStyle::Table,
            r.list_columns@ == seq![ListColumn::Due, ListColumn::Priority],
            r.auto_pager,
            r.saved_commands@.len() == 0,
            r.last_greeted is None,
    {
        UserProfile {
            name: None,
            pronouns: None,
            daily_message: None,
            daily_greeting: true,
            day_start_hour: 6,
            greeting_style: GreetingStyle::Banner,
            greeting_summary: true,
            summary_scope: SummaryScope::Current,
            encouragement_mode: EncouragementMode::BuiltIn,
            list_view: ListViewStyle::Table,
            list_columns: default_list_columns(),
            auto_pager: true,
            saved_commands: Vec::new(),
            last_greeted: None,
        }
    }
}

impl UserProfile {
    /// Whether the daily greeting is owed on the day `day_key`: greetings are on and the user
    /// has not been greeted that day.
    pub fn greeting_due(&self, day_key: Date) -> (r: bool)
        ensures
            r == (self.daily_greeting && self.last_greeted != Some(day_key)),
    {
        if !self.daily_greeting {
            return false;
        }
        match self.last_greeted {
            Some(d) => d != day_key,
            None => true,
        }
    }
}

/// The salutation for an hour of the day.
pub fn salutation(hour: u32) -> (r: &'static str)
    ensures
        r@ == if hour < 12 {
            "Good morning"@
        } else if hour < 18 {
            "Good afternoon"@
        } else {
            "Good evening"@
        },
{
    if hour < 12 {
        "Good morning"
    } else if hour < 18 {
        "Good afternoon"
    } else {
        "Good evening"
    }
}

/// Settings, the current branch and the profile, as stored between runs.
#[derive(Clone, Debug)]
pub struct AppState {
    pub current_branch: String,
    pub config: AppConfig,
    pub profile: UserProfile,
}

impl Default for AppState {
    fn default() -> (r: AppState)
        ensures
            r.current_branch@ == default_branch_name(),
            r.config == (AppConfig {
                default_sort: SortKey::Due,
                default_desc: false,
                color: true,
                reminder_days: 0,
                id_scope: IdScope::Global,
                use_uuid: false,
            }),
            r.profile.daily_greeting,
            r.profile.saved_commands@.len() == 0,
    {
        AppState {
            current_branch: default_branch(),
            config: AppConfig::default(),
            profile: UserProfile::default(),
        }
    }
}

/// The repeat interval that a word names, ignoring case and surrounding whitespace.
pub open spec fn repeat_word(k: Seq<char>) -> Option<Repeat> {
    if k == "daily"@ {
        Some(Repeat::Daily)
    } else if k == "weekly"@ {
        Some(Repeat::Weekly)
    } else if k == "monthly"@ {
        Some(Repeat::Monthly)
    } else {
        None
    }
}

/// The priority that a word names, ignoring case and surrounding whitespace.
pub open spec fn priority_word(k: Seq<char>) -> Option<Priority> {
    if k == "low"@ {
        Some(Priority::Low)
    } else if k == "medium"@ {
        Some(Priority::Medium)
    } else if k == "high"@ {
        Some(Priority::High)
    } else {
        None
    }
}

impl Repeat {
    /// Reads `daily`, `weekly` or `monthly`.
    pub fn parse(s: &str) -> (r: Result<Repeat, String>)
        ensures
            repeat_word(lower_of(trim_of(s@))) matches Some(x) ==> r == Ok::<Repeat, String>(x),
            repeat_word(lower_of(trim_of(s@))) is None ==> (r matches Err(e) && e@
                == "expected daily|weekly|monthly"@),
    {
        let trimmed = trim_text(s);
        let key = lowercase(trimmed.as_str());
        let k = key.as_str();
        if text_eq(k, "daily") {
            Ok(Repeat::Daily)
        } else if text_eq(k, "weekly") {
            Ok(Repeat::Weekly)
        } else if text_eq(k, "monthly") {
            Ok(Repeat::Monthly)
        } else {
            Err(String::from_str("expected daily|weekly|monthly"))
        }
    }
}

impl Priority {
    /// Reads `low`, `medium` or `high`.
    pub fn parse(s: &str) -> (r: Result<Priority, String>)
        ensures
            priority_word(lower_of(trim_of(s@))) matches Some(x) ==> r == Ok::<Priority, String>(
                x,
            ),
            priority_word(lower_of(trim_of(s@))) is None ==> (r matches Err(e) && e@
                == "expected low|medium|high"@),
    {
        let trimmed = trim_text(s);
        let key = lowercase(trimmed.as_str());
        let k = key.as_str();
        if text_eq(k, "low") {
            Ok(Priority::Low)
        } else if text_eq(k, "medium") {
            Ok(Priority::Medium)
        } else if text_eq(k, "high") {
            Ok(Priority::High)
        } else {
            Err(String::from_str("expected low|medium|high"))
        }
    }
}

impl std::str::FromStr for Repeat {
    type Err = String;

    fn from_str(s: &str) -> Result<Repeat, String> {
        Repeat::parse(s)
    }
}

impl std::str::FromStr for Priority {
    type Err = String;

    fn from_str(s: &str) -> Result<Priority, String> {
        Priority::parse(s)
    }
}

/// One task.
#[derive(Clone, Debug)]
pub struct Task {
    pub id: u64,
    pub uid: Option<String>,
    pub title: String,
    pub content: Option<String>,
    pub tags: Vec<String>,
    pub due: Option<Date>,
    pub priority: Option<Priority>,
    pub repeat: Option<Repeat>,
    pub branch: String,
    pub archived: bool,
    pub done: bool,
    pub created_at: String,
}

/// A task as plain values.
pub struct TaskView {
    pub id: u64,
    pub uid: Option<Seq<char>>,
    pub title: Seq<char>,
    pub content: Option<Seq<char>>,
    pub tags: Seq<Seq<char>>,
    pub due: Option<Date>,
    pub priority: Option<Priority>,
    pub repeat: Option<Repeat>,
    pub branch: Seq<char>,
    pub archived: bool,
    pub done: bool,
    pub created_at: Seq<char>,
}

impl View for Task {
    type V = TaskView;

    open spec fn view(&self) -> TaskView {
        TaskView {
            id: self.id,
            uid: opt_text(self.uid),
            title: self.title@,
            content: opt_text(self.content),
            tags: texts(self.tags@),
            due: self.due,
            priority: self.priority,
            repeat: self.repeat,
            branch: self.branch@,
            archived: self.archived,
            done: self.done,
            created_at: self.created_at@,
        }
    }
}

impl TaskView {
    /// The task's due date, where it has one, is a real day.
    pub open spec fn wf(self) -> bool {
        self.due matches Some(d) ==> d.wf()
    }
}

/// The views of a list of tasks.
pub open spec fn task_views(tasks: Seq<Task>) -> Seq<TaskView> {
    tasks.map_values(|t: Task| t@)
}

/// Every task's due date is a real day.
pub open spec fn all_wf(tasks: Seq<TaskView>) -> bool {
    forall|i: int| 0 <= i < tasks.len() ==> (#[trigger] tasks[i]).wf()
}

pub(crate) fn copy_text(s: &Option<String>) -> (r: Option<String>)
    ensures
        r == *s,
{
    match s {
        Some(x) => Some(x.clone()),
        None => None,
    }
}

pub(crate) fn copy_texts(v: &[String]) -> (r: Vec<String>)
    ensures
        r@ == v@,
{
    let mut out: Vec<String> = Vec::new();
    let mut i: usize = 0;
    while i < v.len()
        invariant
            i <= v.len(),
            out@ == v@.take(i as int),
        decreases v.len() - i,
    {
        out.push(v[i].clone());
        proof {
            assert(v@.take(i + 1) =~= v@.take(i as int).push(v@[i as int]));
        }
        i = i + 1;
    }
    assert(v@.take(i as int) =~= v@);
    out
}

impl Task {
    /// A field-for-field copy.
    pub fn copy(&self) -> (r: Task)
        ensures
            r@ == self@,
    {
        Task {
            id: self.id,
            uid: copy_text(&self.uid),
            title: self.title.clone(),
            content: copy_text(&self.content),
            tags: copy_texts(self.tags.as_slice()),
            due: self.due,
            priority: self.priority,
            repeat: self.repeat,
            branch: self.branch.clone(),
            archived: self.archived,
            done: self.done,
            created_at: self.created_at.clone(),
        }
    }
}

/// Urgency rank: High 0, Medium 1, Low 2, none 3.
pub open spec fn rank_of(p: Option<Priority>) -> u8 {
    match p {
        Some(Priority::High) => 0,
        Some(Priority::Medium) => 1,
        Some(Priority::Low) => 2,
        None => 3,
    }
}

/// The urgency rank of a priority; lower ranks sort first.
pub fn priority_rank(p: Option<Priority>) -> (r: u8)
    ensures
        r == rank_of(p),
{
    match p {
        Some(Priority::High) => 0,
        Some(Priority::Medium) => 1,
        Some(Priority::Low) => 2,
        None => 3,
    }
}

} // verus!
