//! The task record, its lifecycle, and the inputs of the task operations.

use vstd::prelude::*;

use crate::id::{LearningId, TaskId};

verus! {

/// A point in time: whole seconds since the Unix epoch and the nanoseconds
/// within that second.
#[derive(Debug, Clone, Copy, PartialEq, Eq, Structural)]
pub struct Timestamp {
    pub secs: i64,
    pub nanos: u32,
}

impl Timestamp {
    /// Strictly earlier, by seconds and then by nanoseconds.
    pub open spec fn before(self, other: Timestamp) -> bool {
        self.secs < other.secs || (self.secs == other.secs && self.nanos < other.nanos)
    }

    /// Strictly earlier than `other`.
    pub fn is_before(&self, other: &Timestamp) -> (r: bool)
        ensures
            r == self.before(*other),
    {
        self.secs < other.secs || (self.secs == other.secs && self.nanos < other.nanos)
    }

    /// The current time.
    pub fn now() -> Timestamp {
        clock_now()
    }
}

/// Reads the system clock with `std::time::SystemTime::now`, turns it into
/// a `chrono::DateTime<chrono::Utc>` with chrono's `From<SystemTime>`, which
/// also takes a clock that stands before 1970, and takes the seconds and
/// sub-second nanoseconds of the result. Nothing is claimed of the value:
/// it is the clock's.
#[verifier::external_body]
fn clock_now() -> Timestamp {
    let now = chrono::DateTime::<chrono::Utc>::from(std::time::SystemTime::now());
    Timestamp { secs: now.timestamp(), nanos: now.timestamp_subsec_nanos() }
}

/// Lifecycle state of a task, derived from its flags and never stored.
#[derive(Debug, Clone, Copy, PartialEq, Eq, Structural)]
pub enum LifecycleState {
    Pending,
    InProgress,
    Completed,
    Cancelled,
    Archived,
}

impl LifecycleState {
    /// The name of the state.
    pub fn name(&self) -> (r: &'static str)
        ensures
            r@ == match *self {
                LifecycleState::Pending => "Pending"@,
                LifecycleState::InProgress => "InProgress"@,
                LifecycleState::Completed => "Completed"@,
                LifecycleState::Cancelled => "Cancelled"@,
                LifecycleState::Archived => "Archived"@,
            },
    {
        match self {
            LifecycleState::Pending => "Pending",
            LifecycleState::InProgress => "InProgress",
            LifecycleState::Completed => "Completed",
            LifecycleState::Cancelled => "Cancelled",
            LifecycleState::Archived => "Archived",
        }
    }
}

/// The view of an optional string.
pub open spec fn opt_str_view(o: Option<String>) -> Option<Seq<char>> {
    match o {
        Some(s) => Some(s@),
        None => None,
    }
}

/// The view of an optional task identifier.
pub open spec fn opt_id_view(o: Option<TaskId>) -> Option<Seq<char>> {
    match o {
        Some(id) => Some(id@),
        None => None,
    }
}

/// The views of a list of task identifiers, in order.
pub open spec fn ids_view(v: Seq<TaskId>) -> Seq<Seq<char>> {
    Seq::new(v.len(), |i: int| v[i]@)
}

/// The views of a list of learning identifiers, in order.
pub open spec fn lids_view(v: Seq<LearningId>) -> Seq<Seq<char>> {
    Seq::new(v.len(), |i: int| v[i]@)
}

/// The views of a list of strings, in order.
pub open spec fn strs_view(v: Seq<String>) -> Seq<Seq<char>> {
    Seq::new(v.len(), |i: int| v[i]@)
}

/// Whether two texts are the same.
pub fn same_text(a: &str, b: &str) -> (r: bool)
    ensures
        r == (a@ == b@),
{
    let x = String::from_str(a);
    let y = String::from_str(b);
    x == y
}

/// A copy of an optional string.
pub fn copy_opt_string(o: &Option<String>) -> (r: Option<String>)
    ensures
        opt_str_view(r) == opt_str_view(*o),
{
    match o {
        Some(s) => Some(s.clone()),
        None => None,
    }
}

/// A copy of an optional identifier.
pub fn copy_opt_id(o: &Option<TaskId>) -> (r: Option<TaskId>)
    ensures
        opt_id_view(r) == opt_id_view(*o),
{
    match o {
        Some(id) => Some(id.clone()),
        None => None,
    }
}

/// A copy of a list of identifiers.
pub fn copy_ids(v: &Vec<TaskId>) -> (r: Vec<TaskId>)
    ensures
        ids_view(r@) == ids_view(v@),
{
    let mut out: Vec<TaskId> = Vec::new();
    let mut i: usize = 0;
    while i < v.len()
        invariant
            i <= v.len(),
            out@.len() == i,
            forall|j: int| 0 <= j < i ==> out@[j]@ == v@[j]@,
        decreases v.len() - i,
    {
        out.push(v[i].clone());
        i += 1;
    }
    assert(ids_view(out@) =~= ids_view(v@));
    out
}

/// What is stored of a task, as mathematical values.
pub struct TaskView {
    pub id: Seq<char>,
    pub parent_id: Option<Seq<char>>,
    pub description: Seq<char>,
    pub context: Seq<char>,
    pub result: Option<Seq<char>>,
    pub priority: i32,
    pub completed: bool,
    pub completed_at: Option<Timestamp>,
    pub created_at: Timestamp,
    pub updated_at: Timestamp,
    pub started_at: Option<Timestamp>,
    pub commit_sha: Option<Seq<char>>,
    pub bookmark: Option<Seq<char>>,
    pub start_commit: Option<Seq<char>>,
    pub cancelled: bool,
    pub cancelled_at: Option<Timestamp>,
    pub archived: bool,
    pub archived_at: Option<Timestamp>,
}

impl TaskView {
    /// The lifecycle state, by the precedence
    /// archived > cancelled > completed > started > pending.
    pub open spec fn state(self) -> LifecycleState {
        if self.archived {
            LifecycleState::Archived
        } else if self.cancelled {
            LifecycleState::Cancelled
        } else if self.completed {
            LifecycleState::Completed
        } else if self.started_at is Some {
            LifecycleState::InProgress
        } else {
            LifecycleState::Pending
        }
    }

    /// Pending or in progress.
    pub open spec fn is_active_for_work(self) -> bool {
        self.state() == LifecycleState::Pending || self.state() == LifecycleState::InProgress
    }

    /// Completed or cancelled, archived or not.
    pub open spec fn is_finished_for_hierarchy(self) -> bool {
        self.completed || self.cancelled
    }

    /// Completed and not cancelled: what unblocks a dependent.
    pub open spec fn satisfies_blocker(self) -> bool {
        self.completed && !self.cancelled
    }

    /// Not both completed and cancelled.
    pub open spec fn flags_exclusive(self) -> bool {
        !(self.completed && self.cancelled)
    }

    /// An archived task is completed or cancelled.
    pub open spec fn archived_is_finished(self) -> bool {
        self.archived ==> self.is_finished_for_hierarchy()
    }

    /// Every flag that is set has its timestamp.
    pub open spec fn flags_are_stamped(self) -> bool {
        &&& self.cancelled ==> self.cancelled_at is Some
        &&& self.archived ==> self.archived_at is Some
        &&& self.completed ==> self.completed_at is Some
    }

    /// The lifecycle invariants of one record.
    pub open spec fn lifecycle_ok(self) -> bool {
        &&& self.flags_exclusive()
        &&& self.archived_is_finished()
        &&& self.flags_are_stamped()
    }

    /// The message for the first lifecycle rule that the record breaks.
    pub open spec fn first_violation(self) -> Seq<char> {
        if self.completed && self.cancelled {
            "Task cannot be both completed and cancelled"@
        } else if self.archived && !self.is_finished_for_hierarchy() {
            "Archived task must be completed or cancelled"@
        } else if self.cancelled && self.cancelled_at is None {
            "Cancelled task must have cancelled_at timestamp"@
        } else if self.archived && self.archived_at is None {
            "Archived task must have archived_at timestamp"@
        } else if self.completed && self.completed_at is None {
            "Completed task must have completed_at timestamp"@
        } else {
            Seq::empty()
        }
    }

    // ----- what the writes make of a record -----

    /// Started at `now`, unless it was started before.
    pub open spec fn started(self, now: Timestamp) -> TaskView {
        if self.started_at is Some {
            self
        } else {
            TaskView { started_at: Some(now), updated_at: now, ..self }
        }
    }

    /// Completed at `now` with this result and commit.
    pub open spec fn finished(
        self,
        result: Option<Seq<char>>,
        commit_sha: Option<Seq<char>>,
        now: Timestamp,
    ) -> TaskView {
        TaskView {
            completed: true,
            completed_at: Some(now),
            result: result,
            commit_sha: commit_sha,
            updated_at: now,
            ..self
        }
    }

    /// Pending again: neither completed nor started.
    pub open spec fn reopened(self, now: Timestamp) -> TaskView {
        TaskView { completed: false, completed_at: None, started_at: None, updated_at: now, ..self }
    }

    /// Cancelled at `now`.
    pub open spec fn cancelled_now(self, now: Timestamp) -> TaskView {
        TaskView { cancelled: true, cancelled_at: Some(now), updated_at: now, ..self }
    }

    /// Archived at `now`.
    pub open spec fn archived_now(self, now: Timestamp) -> TaskView {
        TaskView { archived: true, archived_at: Some(now), updated_at: now, ..self }
    }

    /// With this bookmark.
    pub open spec fn with_bookmark(self, bookmark: Option<Seq<char>>, now: Timestamp) -> TaskView {
        TaskView { bookmark: bookmark, updated_at: now, ..self }
    }

    /// With this start commit.
    pub open spec fn with_start_commit(self, commit: Seq<char>, now: Timestamp) -> TaskView {
        TaskView { start_commit: Some(commit), updated_at: now, ..self }
    }

    /// Without bookmark, start commit and commit.
    pub open spec fn without_vcs_fields(self, now: Timestamp) -> TaskView {
        TaskView { bookmark: None, start_commit: None, commit_sha: None, updated_at: now, ..self }
    }

    /// With the fields of `patch` that are set; `updated_at` always advances.
    pub open spec fn patched(self, patch: PatchView, now: Timestamp) -> TaskView {
        TaskView {
            description: if patch.description is Some {
                patch.description->0
            } else {
                self.description
            },
            context: if patch.context is Some {
                patch.context->0
            } else {
                self.context
            },
            priority: if patch.priority is Some {
                patch.priority->0
            } else {
                self.priority
            },
            parent_id: if patch.parent_id is Some {
                patch.parent_id
            } else {
                self.parent_id
            },
            updated_at: now,
            ..self
        }
    }
}

/// The fields of a task to change, as mathematical values.
pub struct PatchView {
    pub description: Option<Seq<char>>,
    pub context: Option<Seq<char>>,
    pub priority: Option<i32>,
    pub parent_id: Option<Seq<char>>,
}

/// What a new task is made from, as mathematical values.
pub struct CreateView {
    pub description: Seq<char>,
    pub context: Option<Seq<char>>,
    pub parent_id: Option<Seq<char>>,
    pub priority: Option<i32>,
    pub blocked_by: Seq<Seq<char>>,
}

/// The priority of a task made without one.
pub open spec fn default_priority() -> i32 {
    1
}

impl CreateView {
    /// The record of the task made from this input under `id` at `now`.
    pub open spec fn record(self, id: Seq<char>, now: Timestamp) -> TaskView {
        TaskView {
            id: id,
            parent_id: self.parent_id,
            description: self.description,
            context: if self.context is Some {
                self.context->0
            } else {
                Seq::empty()
            },
            result: None,
            priority: if self.priority is Some {
                self.priority->0
            } else {
                default_priority()
            },
            completed: false,
            completed_at: None,
            created_at: now,
            updated_at: now,
            started_at: None,
            commit_sha: None,
            bookmark: None,
            start_commit: None,
            cancelled: false,
            cancelled_at: None,
            archived: false,
            archived_at: None,
        }
    }
}

/// The raw context of a task with those of its parent and milestone.
#[derive(Debug, Clone)]
pub struct TaskContext {
    pub own: String,
    pub parent: Option<String>,
    pub milestone: Option<String>,
}

/// A context chain as mathematical values.
pub struct TaskContextView {
    pub own: Seq<char>,
    pub parent: Option<Seq<char>>,
    pub milestone: Option<Seq<char>>,
}

impl View for TaskContext {
    type V = TaskContextView;

    open spec fn view(&self) -> TaskContextView {
        TaskContextView {
            own: self.own@,
            parent: opt_str_view(self.parent),
            milestone: opt_str_view(self.milestone),
        }
    }
}

/// A note attached to a task. `source_task_id` names the task the note
/// came from and is kept when the note is copied to an ancestor.
#[derive(Debug, Clone)]
pub struct Learning {
    pub id: LearningId,
    pub task_id: TaskId,
    pub content: String,
    pub source_task_id: Option<TaskId>,
    pub created_at: Timestamp,
}

/// A learning as mathematical values.
pub struct LearningView {
    pub id: Seq<char>,
    pub task_id: Seq<char>,
    pub content: Seq<char>,
    pub source_task_id: Option<Seq<char>>,
    pub created_at: Timestamp,
}

impl View for Learning {
    type V = LearningView;

    open spec fn view(&self) -> LearningView {
        LearningView {
            id: self.id@,
            task_id: self.task_id@,
            content: self.content@,
            source_task_id: opt_id_view(self.source_task_id),
            created_at: self.created_at,
        }
    }
}

impl Learning {
    /// A copy of the learning.
    pub fn copy(&self) -> (r: Learning)
        ensures
            r@ == self@,
    {
        Learning {
            id: self.id.clone(),
            task_id: self.task_id.clone(),
            content: self.content.clone(),
            source_task_id: copy_opt_id(&self.source_task_id),
            created_at: self.created_at,
        }
    }
}

/// The views of a list of learnings, in order.
pub open spec fn learnings_view(v: Seq<Learning>) -> Seq<LearningView> {
    Seq::new(v.len(), |i: int| v[i]@)
}

/// The learnings a task inherits from its milestone and its parent.
#[derive(Debug, Clone)]
pub struct InheritedLearnings {
    pub milestone: Vec<Learning>,
    pub parent: Vec<Learning>,
}

/// A task. The fields from `context_chain` to `effectively_blocked` are
/// derived when a task is handed out and are never stored.
#[derive(Debug, Clone)]
pub struct Task {
    pub id: TaskId,
    pub parent_id: Option<TaskId>,
    pub description: String,
    pub context: String,
    pub context_chain: Option<TaskContext>,
    pub learnings: Option<InheritedLearnings>,
    pub result: Option<String>,
    pub priority: i32,
    pub completed: bool,
    pub completed_at: Option<Timestamp>,
    pub created_at: Timestamp,
    pub updated_at: Timestamp,
    pub started_at: Option<Timestamp>,
    pub commit_sha: Option<String>,
    pub bookmark: Option<String>,
    pub start_commit: Option<String>,
    pub depth: Option<i32>,
    pub blocked_by: Vec<TaskId>,
    pub blocks: Vec<TaskId>,
    pub effectively_blocked: bool,
    pub cancelled: bool,
    pub cancelled_at: Option<Timestamp>,
    pub archived: bool,
    pub archived_at: Option<Timestamp>,
}

impl View for Task {
    type V = TaskView;

    open spec fn view(&self) -> TaskView {
        TaskView {
            id: self.id@,
            parent_id: opt_id_view(self.parent_id),
            description: self.description@,
            context: self.context@,
            result: opt_str_view(self.result),
            priority: self.priority,
            completed: self.completed,
            completed_at: self.completed_at,
            created_at: self.created_at,
            updated_at: self.updated_at,
            started_at: self.started_at,
            commit_sha: opt_str_view(self.commit_sha),
            bookmark: opt_str_view(self.bookmark),
            start_commit: opt_str_view(self.start_commit),
            cancelled: self.cancelled,
            cancelled_at: self.cancelled_at,
            archived: self.archived,
            archived_at: self.archived_at,
        }
    }
}

impl Task {
    /// No derived field is filled in.
    pub open spec fn is_bare(&self) -> bool {
        &&& self.context_chain is None
        &&& self.learnings is None
        &&& self.depth is None
        &&& self.blocked_by@.len() == 0
        &&& self.blocks@.len() == 0
        &&& !self.effectively_blocked
    }

    /// A copy of what is stored of the task, with no derived field filled in.
    pub fn stored_copy(&self) -> (r: Task)
        ensures
            r@ == self@,
            r.is_bare(),
    {
        Task {
            id: self.id.clone(),
            parent_id: copy_opt_id(&self.parent_id),
            description: self.description.clone(),
            context: self.context.clone(),
            context_chain: None,
            learnings: None,
            result: copy_opt_string(&self.result),
            priority: self.priority,
            completed: self.completed,
            completed_at: self.completed_at,
            created_at: self.created_at,
            updated_at: self.updated_at,
            started_at: self.started_at,
            commit_sha: copy_opt_string(&self.commit_sha),
            bookmark: copy_opt_string(&self.bookmark),
            start_commit: copy_opt_string(&self.start_commit),
            depth: None,
            blocked_by: Vec::new(),
            blocks: Vec::new(),
            effectively_blocked: false,
            cancelled: self.cancelled,
            cancelled_at: self.cancelled_at,
            archived: self.archived,
            archived_at: self.archived_at,
        }
    }

    /// The lifecycle state, derived from the flags.
    pub fn lifecycle_state(&self) -> (r: LifecycleState)
        ensures
            r == self@.state(),
    {
        if self.archived {
            LifecycleState::Archived
        } else if self.cancelled {
            LifecycleState::Cancelled
        } else if self.completed {
            LifecycleState::Completed
        } else if self.started_at.is_some() {
            LifecycleState::InProgress
        } else {
            LifecycleState::Pending
        }
    }

    /// Whether the task is open for work: pending or in progress.
    pub fn is_active_for_work(&self) -> (r: bool)
        ensures
            r == self@.is_active_for_work(),
    {
        match self.lifecycle_state() {
            LifecycleState::Pending | LifecycleState::InProgress => true,
            _ => false,
        }
    }

    /// Whether the task counts as done for its parent: completed or cancelled.
    pub fn is_finished_for_hierarchy(&self) -> (r: bool)
        ensures
            r == self@.is_finished_for_hierarchy(),
    {
        self.completed || self.cancelled
    }

    /// Whether the task unblocks its dependents: completed and not cancelled.
    pub fn satisfies_blocker(&self) -> (r: bool)
        ensures
            r == self@.satisfies_blocker(),
    {
        self.completed && !self.cancelled
    }

    /// Checks the lifecycle invariants of the record and names the first
    /// one that is broken.
    pub fn validate_lifecycle_invariants(&self) -> (r: Result<(), String>)
        ensures
            r is Ok <==> self@.lifecycle_ok(),
            r matches Err(message) ==> message@ == self@.first_violation(),
    {
        if self.completed && self.cancelled {
            return Err(String::from_str("Task cannot be both completed and cancelled"));
        }
        if self.archived && !self.is_finished_for_hierarchy() {
            return Err(String::from_str("Archived task must be completed or cancelled"));
        }
        if self.cancelled && self.cancelled_at.is_none() {
            return Err(String::from_str("Cancelled task must have cancelled_at timestamp"));
        }
        if self.archived && self.archived_at.is_none() {
            return Err(String::from_str("Archived task must have archived_at timestamp"));
        }
        if self.completed && self.completed_at.is_none() {
            return Err(String::from_str("Completed task must have completed_at timestamp"));
        }
        Ok(())
    }
}

/// What a new task is made from.
#[derive(Debug, Clone)]
pub struct CreateTaskInput {
    pub description: String,
    pub context: Option<String>,
    pub parent_id: Option<TaskId>,
    pub priority: Option<i32>,
    pub blocked_by: Vec<TaskId>,
}

impl View for CreateTaskInput {
    type V = CreateView;

    open spec fn view(&self) -> CreateView {
        CreateView {
            description: self.description@,
            context: opt_str_view(self.context),
            parent_id: opt_id_view(self.parent_id),
            priority: self.priority,
            blocked_by: ids_view(self.blocked_by@),
        }
    }
}

impl Default for CreateTaskInput {
    fn default() -> (r: Self)
        ensures
            r.description@.len() == 0,
            r.context is None,
            r.parent_id is None,
            r.priority is None,
            r.blocked_by@.len() == 0,
    {
        CreateTaskInput {
            description: String::new(),
            context: None,
            parent_id: None,
            priority: None,
            blocked_by: Vec::new(),
        }
    }
}

/// The fields of a task to change; `None` leaves a field as it is.
#[derive(Debug, Clone)]
pub struct UpdateTaskInput {
    pub description: Option<String>,
    pub context: Option<String>,
    pub priority: Option<i32>,
    pub parent_id: Option<TaskId>,
}

impl View for UpdateTaskInput {
    type V = PatchView;

    open spec fn view(&self) -> PatchView {
        PatchView {
            description: opt_str_view(self.description),
            context: opt_str_view(self.context),
            priority: self.priority,
            parent_id: opt_id_view(self.parent_id),
        }
    }
}

impl Default for UpdateTaskInput {
    fn default() -> (r: Self)
        ensures
            r.description is None,
            r.context is None,
            r.priority is None,
            r.parent_id is None,
    {
        UpdateTaskInput { description: None, context: None, priority: None, parent_id: None }
    }
}

/// Which tasks a listing holds.
#[derive(Debug, Clone)]
pub struct ListTasksFilter {
    pub parent_id: Option<TaskId>,
    pub ready: bool,
    pub completed: Option<bool>,
    /// 0 for milestones, 1 for tasks, 2 for subtasks.
    pub depth: Option<i32>,
    /// `None` lists all, `Some(true)` only archived tasks, `Some(false)`
    /// only tasks that are not archived.
    pub archived: Option<bool>,
}

/// Which tasks a listing holds, as mathematical values.
pub struct FilterView {
    pub parent_id: Option<Seq<char>>,
    pub ready: bool,
    pub completed: Option<bool>,
    pub depth: Option<i32>,
    pub archived: Option<bool>,
}

impl View for ListTasksFilter {
    type V = FilterView;

    open spec fn view(&self) -> FilterView {
        FilterView {
            parent_id: opt_id_view(self.parent_id),
            ready: self.ready,
            completed: self.completed,
            depth: self.depth,
            archived: self.archived,
        }
    }
}

impl Default for ListTasksFilter {
    fn default() -> (r: Self)
        ensures
            r.parent_id is None,
            !r.ready,
            r.completed is None,
            r.depth is None,
            r.archived == Some(false),
    {
        ListTasksFilter {
            parent_id: None,
            ready: false,
            completed: None,
            depth: None,
            archived: Some(false),
        }
    }
}

} // verus!
