//! The task commands.

use vstd::prelude::*;

use crate::context::{get_task_with_context, TaskWithContext};
use crate::error::OsError;
use crate::id::{IdParseError, TaskId};
use crate::model::StoreView;
use crate::order::tasks_view;
use crate::store::{opt_text, Store};
use crate::task_service::TaskService;
use crate::types::{
    ids_view, opt_id_view, opt_str_view, strs_view, CreateTaskInput, CreateView, FilterView,
    ListTasksFilter, PatchView, Task, TaskView, Timestamp, UpdateTaskInput,
};
use crate::vcs::VcsBackend;
use crate::workflow::TaskWorkflowService;

verus! {

/// Reads a task identifier from the command line; the error is the
/// message for the user.
pub fn parse_task_id(s: &str) -> (r: Result<TaskId, String>)
    ensures
        r is Ok <==> TaskId::is_well_formed(s@),
        r matches Ok(id) ==> id@ == s@,
{
    match TaskId::parse(s) {
        Ok(id) => Ok(id),
        Err(e) => Err(e.message()),
    }
}

pub enum TaskCommand {
    Create(CreateArgs),
    Get { id: TaskId },
    List(ListArgs),
    Update(UpdateArgs),
    Start { id: TaskId },
    Complete(CompleteArgs),
    Reopen { id: TaskId },
    Delete { id: TaskId },
    Block(BlockArgs),
    Unblock(UnblockArgs),
    NextReady(NextReadyArgs),
    Tree(TreeArgs),
    Search(SearchArgs),
    Progress(ProgressArgs),
}

pub struct CreateArgs {
    pub description: String,
    pub context: Option<String>,
    pub parent: Option<TaskId>,
    pub priority: Option<i32>,
    pub blocked_by: Vec<TaskId>,
}

pub struct ListArgs {
    pub parent: Option<TaskId>,
    pub ready: bool,
    pub completed: bool,
    /// Only milestones.
    pub milestones: bool,
    /// Only tasks.
    pub tasks: bool,
    /// Only subtasks.
    pub subtasks: bool,
    /// A flat list in place of the tree; for human output only.
    pub flat: bool,
}

pub struct UpdateArgs {
    pub id: TaskId,
    pub description: Option<String>,
    pub context: Option<String>,
    pub priority: Option<i32>,
    pub parent: Option<TaskId>,
}

pub struct CompleteArgs {
    pub id: TaskId,
    pub result: Option<String>,
    /// What was learned while working on the task.
    pub learnings: Vec<String>,
}

pub struct BlockArgs {
    pub id: TaskId,
    pub by: TaskId,
}

pub struct UnblockArgs {
    pub id: TaskId,
    pub by: TaskId,
}

pub struct NextReadyArgs {
    pub milestone: Option<TaskId>,
}

pub struct TreeArgs {
    pub id: Option<TaskId>,
}

pub struct SearchArgs {
    pub query: String,
}

pub struct ProgressArgs {
    /// The task to count under; all tasks where none is given.
    pub id: Option<TaskId>,
}

/// How many tasks there are, and how many of them are completed, ready
/// and blocked.
#[derive(Debug, Clone, Copy, PartialEq, Eq, Structural)]
pub struct TaskProgressResult {
    pub total: usize,
    pub completed: usize,
    pub ready: usize,
    pub blocked: usize,
}

/// A task with the trees of its children.
#[derive(Debug)]
pub struct TaskTree {
    pub task: Task,
    pub children: Vec<TaskTree>,
}

pub enum TaskResult {
    One(Task),
    OneWithContext(TaskWithContext),
    MaybeOneWithContext(Option<TaskWithContext>),
    Many(Vec<Task>),
    Deleted,
    Tree(TaskTree),
    Trees(Vec<TaskTree>),
    Progress(TaskProgressResult),
}

/// How a task is shown in a listing.
#[derive(Debug, Clone, Copy, PartialEq, Eq, Structural)]
pub enum TaskStatus {
    Completed,
    Blocked,
    Ready,
}

impl TaskStatus {
    /// Completed before blocked before ready.
    pub fn classify(completed: bool, effectively_blocked: bool) -> (r: TaskStatus)
        ensures
            r == if completed {
                TaskStatus::Completed
            } else if effectively_blocked {
                TaskStatus::Blocked
            } else {
                TaskStatus::Ready
            },
    {
        if completed {
            TaskStatus::Completed
        } else if effectively_blocked {
            TaskStatus::Blocked
        } else {
            TaskStatus::Ready
        }
    }
}

/// The lower-case form of a text, as `str::to_lowercase` gives it.
pub uninterp spec fn lowered(text: Seq<char>) -> Seq<char>;

/// `needle` occurs in `hay` as a run of adjacent characters.
pub open spec fn occurs_in(hay: Seq<char>, needle: Seq<char>) -> bool {
    exists|i: int|
        0 <= i <= hay.len() - needle.len() && #[trigger] hay.subrange(i, i + needle.len())
            == needle
}

/// Calls `str::to_lowercase`: the text with every character replaced by
/// its lower-case form as Unicode defines it, which depends on the text
/// alone.
#[verifier::external_body]
fn to_lowercase(text: &str) -> (r: String)
    ensures
        r@ == lowered(text@),
{
    text.to_lowercase()
}

/// Calls `str::contains` with a string pattern: whether the pattern
/// occurs in the text as a substring.
#[verifier::external_body]
fn contains_text(hay: &str, needle: &str) -> (r: bool)
    ensures
        r == occurs_in(hay@, needle@),
{
    hay.contains(needle)
}

/// The filter that lets the children of `parent` through, archived
/// tasks excepted.
pub open spec fn children_filter(parent: Seq<char>) -> FilterView {
    FilterView {
        parent_id: Some(parent),
        ready: false,
        completed: None,
        depth: None,
        archived: Some(false),
    }
}

/// The filter that lets every task through, archived tasks excepted.
pub open spec fn all_filter() -> FilterView {
    FilterView { parent_id: None, ready: false, completed: None, depth: None, archived: Some(false) }
}

/// The filter that lets the milestones through, archived ones excepted.
pub open spec fn milestones_filter() -> FilterView {
    FilterView {
        parent_id: None,
        ready: false,
        completed: None,
        depth: Some(0),
        archived: Some(false),
    }
}

/// The request of a `create` command as the input of the operation.
pub open spec fn create_view(args: CreateArgs) -> CreateView {
    CreateView {
        description: args.description@,
        context: opt_str_view(args.context),
        parent_id: opt_id_view(args.parent),
        priority: args.priority,
        blocked_by: ids_view(args.blocked_by@),
    }
}

/// The request of an `update` command as the input of the operation.
pub open spec fn patch_view(args: UpdateArgs) -> PatchView {
    PatchView {
        description: opt_str_view(args.description),
        context: opt_str_view(args.context),
        priority: args.priority,
        parent_id: opt_id_view(args.parent),
    }
}

/// The request of a `list` command as the filter of the listing: at most
/// one depth, milestones before tasks before subtasks, and completed
/// tasks only where asked for.
pub open spec fn list_view(args: ListArgs) -> FilterView {
    FilterView {
        parent_id: opt_id_view(args.parent),
        ready: args.ready,
        completed: if args.completed {
            Some(true)
        } else {
            None
        },
        depth: if args.milestones {
            Some(0i32)
        } else if args.tasks {
            Some(1i32)
        } else if args.subtasks {
            Some(2i32)
        } else {
            None
        },
        archived: Some(false),
    }
}

impl StoreView {
    /// `tree` is the tree of its task: the task as the store describes it
    /// with the trees of its children that are not archived, in traversal
    /// order, down to `levels` levels.
    #[verifier::opaque]
    pub open spec fn is_tree(self, tree: TaskTree, levels: nat) -> bool
        decreases levels,
    {
        let children = self.listed(children_filter(tree.task@.id));
        &&& self.describes(tree.task)
        &&& tree.children@.len() == if levels == 0 {
            0
        } else {
            children.len()
        }
        &&& levels > 0 ==> forall|i: int|
            0 <= i < children.len() ==> (#[trigger] tree.children@[i]).task@ == children[i]
                && self.is_tree(tree.children@[i], (levels - 1) as nat)
    }

    /// The task `t` followed by all that lies below it, archived tasks
    /// and what lies below them excepted: each task is followed by what
    /// lies below it before its next sibling comes.
    pub open spec fn scope_under(self, t: TaskView, levels: nat) -> Seq<TaskView>
        decreases levels, 0nat, 0nat,
    {
        if levels == 0 {
            seq![t]
        } else {
            seq![t] + self.scope_among(
                self.listed(children_filter(t.id)),
                (levels - 1) as nat,
            )
        }
    }

    /// The scopes of each of `tasks` in turn.
    pub open spec fn scope_among(self, tasks: Seq<TaskView>, levels: nat) -> Seq<TaskView>
        decreases levels, 1nat, tasks.len(),
    {
        if tasks.len() == 0 {
            Seq::empty()
        } else {
            self.scope_under(tasks[0], levels) + self.scope_among(tasks.skip(1), levels)
        }
    }

    /// The progress over `tasks`: how many there are, how many are
    /// completed, and how many of the others are effectively blocked and
    /// not.
    pub open spec fn progress_over(self, tasks: Seq<TaskView>) -> TaskProgressResult {
        TaskProgressResult {
            total: tasks.len() as usize,
            completed: tasks.filter(|t: TaskView| t.completed).len() as usize,
            ready: tasks.filter(
                |t: TaskView| !t.completed && !self.effectively_blocked(t.id),
            ).len() as usize,
            blocked: tasks.filter(
                |t: TaskView| !t.completed && self.effectively_blocked(t.id),
            ).len() as usize,
        }
    }

    /// The query occurs in the description, the context or the result of
    /// the task, whatever the case of the letters.
    pub open spec fn matches_query(t: TaskView, query: Seq<char>) -> bool {
        ||| occurs_in(lowered(t.description), lowered(query))
        ||| occurs_in(lowered(t.context), lowered(query))
        ||| (t.result is Some && occurs_in(lowered(t.result->0), lowered(query)))
    }

    /// The tasks that match the query, archived tasks excepted, in
    /// traversal order.
    pub open spec fn found(self, query: Seq<char>) -> Seq<TaskView> {
        self.listed(all_filter()).filter(|t: TaskView| Self::matches_query(t, query))
    }
}

/// The filter that lets the children of `parent` through.
fn children_of(parent: &TaskId) -> (f: ListTasksFilter)
    ensures
        f@ == children_filter(parent@),
{
    ListTasksFilter {
        parent_id: Some(parent.clone()),
        ready: false,
        completed: None,
        depth: None,
        archived: Some(false),
    }
}

/// The filter that lets every task through, archived tasks excepted.
fn all_tasks_filter() -> (f: ListTasksFilter)
    ensures
        f@ == all_filter(),
{
    ListTasksFilter { parent_id: None, ready: false, completed: None, depth: None, archived: Some(false) }
}

/// The trees of `tasks`, each down to `levels` levels.
fn build_trees(svc: &TaskService, tasks: Vec<Task>, levels: usize) -> (trees: Vec<TaskTree>)
    requires
        svc@.wf(),
        forall|k: int| 0 <= k < tasks@.len() ==> svc@.describes(#[trigger] tasks@[k]),
    ensures
        trees@.len() == tasks@.len(),
        forall|i: int|
            0 <= i < trees@.len() ==> (#[trigger] trees@[i]).task == tasks@[i] && svc@.is_tree(
                trees@[i],
                levels as nat,
            ),
    decreases levels, 1nat, tasks@.len(),
{
    let mut rest = tasks;
    let mut trees: Vec<TaskTree> = Vec::new();
    let mut n: usize = 0;
    while rest.len() > 0
        invariant
            svc@.wf(),
            n + rest@.len() == tasks@.len(),
            rest@ == tasks@.skip(n as int),
            forall|k: int| 0 <= k < tasks@.len() ==> svc@.describes(#[trigger] tasks@[k]),
            trees@.len() == n,
            forall|i: int|
                0 <= i < n ==> (#[trigger] trees@[i]).task == tasks@[i] && svc@.is_tree(
                    trees@[i],
                    levels as nat,
                ),
        decreases rest@.len(),
    {
        assert(n < tasks@.len());
        let task = rest.remove(0);
        assert(task == tasks@[n as int]);
        assert(rest@ =~= tasks@.skip(n + 1));
        let tree = build_tree_recursive(svc, task, levels);
        trees.push(tree);
        n = trees.len();
    }
    trees
}

/// The tree of `task`, down to `levels` levels.
fn build_tree_recursive(svc: &TaskService, task: Task, levels: usize) -> (tree: TaskTree)
    requires
        svc@.wf(),
        svc@.describes(task),
    ensures
        tree.task == task,
        svc@.is_tree(tree, levels as nat),
    decreases levels, 0nat, 0nat,
{
    if levels == 0 {
        let tree = TaskTree { task, children: Vec::new() };
        proof {
            reveal(StoreView::is_tree);
        }
        return tree;
    }
    let filter = children_of(&task.id);
    let listed = match svc.list(&filter) {
        Ok(l) => l,
        Err(_) => Vec::new(),
    };
    let ghost all = tasks_view(listed@);
    let children = build_trees(svc, listed, levels - 1);
    let tree = TaskTree { task, children };
    proof {
        reveal(StoreView::is_tree);
        assert forall|i: int| 0 <= i < all.len() implies (#[trigger] tree.children@[i]).task@
            == all[i] by {
            assert(tree.children@[i].task == listed@[i]);
        }
    }
    tree
}

/// The tree of the task `root_id`.
fn build_tree_for_task(svc: &TaskService, root_id: &TaskId) -> (r: Result<TaskTree, OsError>)
    requires
        svc@.wf(),
    ensures
        !svc@.contains(root_id@) ==> (r matches Err(OsError::TaskNotFound(missing)) && missing@
            == root_id@),
        svc@.contains(root_id@) ==> (r matches Ok(tree) && tree.task@.id == root_id@
            && svc@.is_tree(tree, 2)),
{
    match svc.get(root_id) {
        Err(e) => Err(e),
        Ok(root) => Ok(build_tree_recursive(svc, root, 2)),
    }
}

/// The trees of all milestones that are not archived, in traversal order.
fn build_all_trees(svc: &TaskService) -> (trees: Vec<TaskTree>)
    requires
        svc@.wf(),
    ensures
        trees@.len() == svc@.listed(milestones_filter()).len(),
        forall|i: int|
            0 <= i < trees@.len() ==> (#[trigger] trees@[i]).task@ == svc@.listed(
                milestones_filter(),
            )[i] && svc@.is_tree(trees@[i], 2),
{
    let filter = ListTasksFilter {
        parent_id: None,
        ready: false,
        completed: None,
        depth: Some(0),
        archived: Some(false),
    };
    let milestones = match svc.list(&filter) {
        Ok(l) => l,
        Err(_) => Vec::new(),
    };
    let ghost all = milestones@;
    let trees = build_trees(svc, milestones, 2);
    proof {
        assert forall|i: int| 0 <= i < trees@.len() implies (#[trigger] trees@[i]).task@
            == svc@.listed(milestones_filter())[i] by {
            assert(trees@[i].task == all[i]);
            assert(tasks_view(all)[i] == all[i]@);
        }
    }
    trees
}

/// Adds `task` and all that lies below it to `out`.
#[verifier::rlimit(40)]
fn collect_scope(svc: &TaskService, task: Task, levels: usize, out: &mut Vec<Task>)
    requires
        svc@.wf(),
        svc@.describes(task),
        forall|k: int| 0 <= k < old(out)@.len() ==> svc@.describes(#[trigger] old(out)@[k]),
    ensures
        tasks_view(final(out)@) == tasks_view(old(out)@) + svc@.scope_under(task@, levels as nat),
        forall|k: int| 0 <= k < final(out)@.len() ==> svc@.describes(#[trigger] final(out)@[k]),
    decreases levels, 0nat, 0nat,
{
    let ghost before = tasks_view(out@);
    let ghost record = task@;
    let children = if levels > 0 {
        let filter = children_of(&task.id);
        match svc.list(&filter) {
            Ok(l) => l,
            Err(_) => Vec::new(),
        }
    } else {
        Vec::new()
    };
    let ghost held = out@;
    out.push(task);
    assert(tasks_view(out@) =~= before + seq![record]);
    assert forall|k: int| 0 <= k < out@.len() implies svc@.describes(#[trigger] out@[k]) by {
        if k < held.len() {
            assert(out@[k] == held[k]);
        }
    }
    if levels > 0 {
        let ghost listed = svc@.listed(children_filter(record.id));
        collect_scopes(svc, children, levels - 1, out);
        assert((before + seq![record]) + svc@.scope_among(listed, (levels - 1) as nat) =~= before
            + (seq![record] + svc@.scope_among(listed, (levels - 1) as nat)));
    }
}

/// Adds each of `tasks` and all that lies below it to `out`.
fn collect_scopes(svc: &TaskService, tasks: Vec<Task>, levels: usize, out: &mut Vec<Task>)
    requires
        svc@.wf(),
        forall|k: int| 0 <= k < tasks@.len() ==> svc@.describes(#[trigger] tasks@[k]),
        forall|k: int| 0 <= k < old(out)@.len() ==> svc@.describes(#[trigger] old(out)@[k]),
    ensures
        tasks_view(final(out)@) == tasks_view(old(out)@) + svc@.scope_among(
            tasks_view(tasks@),
            levels as nat,
        ),
        forall|k: int| 0 <= k < final(out)@.len() ==> svc@.describes(#[trigger] final(out)@[k]),
    decreases levels, 1nat, tasks@.len(),
{
    let ghost before = tasks_view(out@);
    let ghost all = tasks_view(tasks@);
    let mut rest = tasks;
    let ghost mut done: int = 0;
    proof {
        assert(all.skip(0) =~= all);
    }
    while rest.len() > 0
        invariant
            svc@.wf(),
            0 <= done,
            done + rest@.len() == tasks@.len(),
            rest@ == tasks@.skip(done),
            all == tasks_view(tasks@),
            forall|k: int| 0 <= k < tasks@.len() ==> svc@.describes(#[trigger] tasks@[k]),
            forall|k: int| 0 <= k < out@.len() ==> svc@.describes(#[trigger] out@[k]),
            tasks_view(out@) + svc@.scope_among(all.skip(done), levels as nat) == before
                + svc@.scope_among(all, levels as nat),
        decreases rest@.len(),
    {
        let ghost here = tasks_view(out@);
        let task = rest.remove(0);
        proof {
            assert(task == tasks@[done]);
            assert(rest@ =~= tasks@.skip(done + 1));
            assert(all.skip(done)[0] == task@);
            assert(all.skip(done).skip(1) =~= all.skip(done + 1));
        }
        let ghost record = task@;
        collect_scope(svc, task, levels, out);
        proof {
            let found = svc@.scope_under(record, levels as nat);
            let later = svc@.scope_among(all.skip(done + 1), levels as nat);
            assert((here + found) + later =~= here + (found + later));
            done = done + 1;
        }
    }
    proof {
        assert(all.skip(done) =~= Seq::empty());
        assert(tasks_view(out@) + Seq::<TaskView>::empty() =~= tasks_view(out@));
    }
}

/// The task `root_id` followed by all that lies below it.
fn get_descendants(svc: &TaskService, root_id: &TaskId) -> (r: Result<Vec<Task>, OsError>)
    requires
        svc@.wf(),
    ensures
        !svc@.contains(root_id@) ==> (r matches Err(OsError::TaskNotFound(missing)) && missing@
            == root_id@),
        svc@.contains(root_id@) ==> (r matches Ok(tasks) && tasks_view(tasks@)
            == svc@.scope_under(svc@.task(root_id@), 2) && forall|k: int|
            0 <= k < tasks@.len() ==> svc@.describes(#[trigger] tasks@[k])),
{
    match svc.get(root_id) {
        Err(e) => Err(e),
        Ok(root) => {
            let mut out: Vec<Task> = Vec::new();
            assert(tasks_view(out@) =~= Seq::empty());
            collect_scope(svc, root, 2, &mut out);
            assert(Seq::<TaskView>::empty() + svc@.scope_under(svc@.task(root_id@), 2)
                =~= svc@.scope_under(svc@.task(root_id@), 2));
            Ok(out)
        },
    }
}

/// How many of `tasks` there are, and how many of them are completed,
/// ready and blocked.
fn count_progress(svc: &TaskService, tasks: &Vec<Task>) -> (r: TaskProgressResult)
    requires
        svc@.wf(),
        forall|k: int| 0 <= k < tasks@.len() ==> svc@.describes(#[trigger] tasks@[k]),
    ensures
        r == svc@.progress_over(tasks_view(tasks@)),
{
    let ghost s = svc@;
    let ghost all = tasks_view(tasks@);
    let ghost pc = |t: TaskView| t.completed;
    let ghost pr = |t: TaskView| !t.completed && !s.effectively_blocked(t.id);
    let ghost pb = |t: TaskView| !t.completed && s.effectively_blocked(t.id);
    let mut completed: usize = 0;
    let mut ready: usize = 0;
    let mut blocked: usize = 0;
    let mut i: usize = 0;
    proof {
        assert(all.take(0).filter(pc) =~= Seq::empty());
        assert(all.take(0).filter(pr) =~= Seq::empty());
        assert(all.take(0).filter(pb) =~= Seq::empty());
    }
    while i < tasks.len()
        invariant
            i <= tasks@.len(),
            s == svc@,
            all == tasks_view(tasks@),
            pc == |t: TaskView| t.completed,
            pr == |t: TaskView| !t.completed && !s.effectively_blocked(t.id),
            pb == |t: TaskView| !t.completed && s.effectively_blocked(t.id),
            forall|k: int| 0 <= k < tasks@.len() ==> s.describes(#[trigger] tasks@[k]),
            completed == all.take(i as int).filter(pc).len(),
            ready == all.take(i as int).filter(pr).len(),
            blocked == all.take(i as int).filter(pb).len(),
            completed <= i,
            ready <= i,
            blocked <= i,
        decreases tasks@.len() - i,
    {
        proof {
            crate::store::lemma_filter_step(all, pc, i as int);
            crate::store::lemma_filter_step(all, pr, i as int);
            crate::store::lemma_filter_step(all, pb, i as int);
            assert(all[i as int] == tasks@[i as int]@);
            assert(s.describes(tasks@[i as int]));
        }
        let t = &tasks[i];
        if t.completed {
            completed += 1;
        } else if t.effectively_blocked {
            blocked += 1;
        } else {
            ready += 1;
        }
        i += 1;
    }
    proof {
        assert(all.take(i as int) =~= all);
    }
    TaskProgressResult { total: tasks.len(), completed, ready, blocked }
}

/// The progress under the task `root_id`, or over all tasks that are not
/// archived where no task is given.
fn calculate_progress(svc: &TaskService, root_id: Option<&TaskId>) -> (r: Result<
    TaskProgressResult,
    OsError,
>)
    requires
        svc@.wf(),
    ensures
        match root_id {
            Some(id) => if svc@.contains(id@) {
                r == Ok::<TaskProgressResult, OsError>(
                    svc@.progress_over(svc@.scope_under(svc@.task(id@), 2)),
                )
            } else {
                r matches Err(OsError::TaskNotFound(missing)) && missing@ == id@
            },
            None => r == Ok::<TaskProgressResult, OsError>(
                svc@.progress_over(svc@.listed(all_filter())),
            ),
        },
{
    let tasks = match root_id {
        Some(id) => match get_descendants(svc, id) {
            Ok(t) => t,
            Err(e) => {
                return Err(e);
            },
        },
        None => {
            let filter = all_tasks_filter();
            match svc.list(&filter) {
                Ok(l) => l,
                Err(_) => Vec::new(),
            }
        },
    };
    Ok(count_progress(svc, &tasks))
}

/// Whether the query, in lower case, occurs in the description, the
/// context or the result of the task.
fn task_matches(task: &Task, query_lower: &str, query: Ghost<Seq<char>>) -> (r: bool)
    requires
        query_lower@ == lowered(query@),
    ensures
        r == StoreView::matches_query(task@, query@),
{
    if contains_text(to_lowercase(task.description.as_str()).as_str(), query_lower) {
        return true;
    }
    if contains_text(to_lowercase(task.context.as_str()).as_str(), query_lower) {
        return true;
    }
    match &task.result {
        Some(result) => contains_text(to_lowercase(result.as_str()).as_str(), query_lower),
        None => false,
    }
}

/// The tasks whose description, context or result holds the query,
/// whatever the case of the letters; archived tasks are left out.
fn search_tasks(svc: &TaskService, query: &str) -> (r: Vec<Task>)
    requires
        svc@.wf(),
    ensures
        tasks_view(r@) == svc@.found(query@),
        forall|k: int| 0 <= k < r@.len() ==> svc@.describes(#[trigger] r@[k]),
{
    let filter = all_tasks_filter();
    let mut rest = match svc.list(&filter) {
        Ok(l) => l,
        Err(_) => Vec::new(),
    };
    let query_lower = to_lowercase(query);
    let ghost full = rest@;
    let ghost all = tasks_view(rest@);
    let ghost p = |t: TaskView| StoreView::matches_query(t, query@);
    let ghost mut done: int = 0;
    let mut out: Vec<Task> = Vec::new();
    proof {
        assert(all.take(0).filter(p) =~= Seq::empty());
        assert(tasks_view(out@) =~= Seq::empty());
    }
    while rest.len() > 0
        invariant
            0 <= done,
            done + rest@.len() == full.len(),
            rest@ == full.skip(done),
            all == tasks_view(full),
            query_lower@ == lowered(query@),
            p == |t: TaskView| StoreView::matches_query(t, query@),
            forall|k: int| 0 <= k < full.len() ==> svc@.describes(#[trigger] full[k]),
            forall|k: int| 0 <= k < out@.len() ==> svc@.describes(#[trigger] out@[k]),
            tasks_view(out@) == all.take(done).filter(p),
        decreases rest@.len(),
    {
        proof {
            crate::store::lemma_filter_step(all, p, done);
        }
        let task = rest.remove(0);
        proof {
            assert(task == full[done]);
            assert(rest@ =~= full.skip(done + 1));
            assert(all[done] == task@);
        }
        if task_matches(&task, query_lower.as_str(), Ghost(query@)) {
            let ghost before = out@;
            out.push(task);
            assert(tasks_view(out@) =~= tasks_view(before).push(all[done]));
        }
        proof {
            done = done + 1;
        }
    }
    proof {
        assert(all.take(done) =~= all);
    }
    out
}

/// The answer of an operation on one task as the answer of a command.
pub open spec fn as_one(inner: Result<Task, OsError>) -> Result<TaskResult, OsError> {
    match inner {
        Ok(t) => Ok(TaskResult::One(t)),
        Err(e) => Err(e),
    }
}

/// The task `t` with its context, as `get_task_with_context` gives it.
pub open spec fn with_context(s: StoreView, twc: TaskWithContext, id: Seq<char>) -> bool {
    &&& twc.task@.id == id
    &&& s.describes_fully(twc.task)
    &&& twc.progressive_context.own@ == s.task(id).context
    &&& opt_str_view(twc.progressive_context.parent) == crate::context::unless_empty(
        s.first_context_at(s.ancestors(id), 1),
    )
    &&& opt_str_view(twc.progressive_context.milestone) == crate::context::unless_empty(
        s.last_context_at(s.ancestors(id), 0),
    )
    &&& crate::types::learnings_view(twc.inherited_learnings.own@) == s.learnings_of(id)
    &&& crate::types::learnings_view(twc.inherited_learnings.parent@) == s.learnings_at(
        s.ancestors(id),
        1,
    )
    &&& crate::types::learnings_view(twc.inherited_learnings.milestone@) == s.learnings_at(
        s.ancestors(id),
        0,
    )
}

/// What a command that reads the store answers.
pub open spec fn answered(s: StoreView, cmd: TaskCommand, r: Result<TaskResult, OsError>) -> bool {
    match cmd {
        TaskCommand::Get { id } => if s.contains(id@) {
            r matches Ok(TaskResult::OneWithContext(twc)) && with_context(s, twc, id@)
        } else {
            r matches Err(OsError::TaskNotFound(missing)) && missing@ == id@
        },
        TaskCommand::List(args) => r matches Ok(TaskResult::Many(tasks)) && tasks_view(tasks@)
            == s.listed(list_view(args)).filter(|t: TaskView| !args.ready || s.is_ready(t)),
        TaskCommand::NextReady(args) => match args.milestone {
            Some(id) => if s.contains(id@) {
                match s.next_ready(Some(id@)) {
                    Some(next) => r matches Ok(TaskResult::MaybeOneWithContext(Some(twc)))
                        && with_context(s, twc, next),
                    None => r matches Ok(TaskResult::MaybeOneWithContext(None)),
                }
            } else {
                r matches Err(OsError::TaskNotFound(missing)) && missing@ == id@
            },
            None => match s.next_ready(None) {
                Some(next) => r matches Ok(TaskResult::MaybeOneWithContext(Some(twc)))
                    && with_context(s, twc, next),
                None => r matches Ok(TaskResult::MaybeOneWithContext(None)),
            },
        },
        TaskCommand::Tree(args) => match args.id {
            Some(id) => if s.contains(id@) {
                r matches Ok(TaskResult::Tree(tree)) && tree.task@.id == id@ && s.is_tree(tree, 2)
            } else {
                r matches Err(OsError::TaskNotFound(missing)) && missing@ == id@
            },
            None => r matches Ok(TaskResult::Trees(trees)) && trees@.len() == s.listed(
                milestones_filter(),
            ).len() && forall|i: int|
                0 <= i < trees@.len() ==> (#[trigger] trees@[i]).task@ == s.listed(
                    milestones_filter(),
                )[i] && s.is_tree(trees@[i], 2),
        },
        TaskCommand::Search(args) => r matches Ok(TaskResult::Many(tasks)) && tasks_view(tasks@)
            == s.found(args.query@),
        TaskCommand::Progress(args) => match args.id {
            Some(id) => if s.contains(id@) {
                r matches Ok(TaskResult::Progress(p)) && p == s.progress_over(
                    s.scope_under(s.task(id@), 2),
                )
            } else {
                r matches Err(OsError::TaskNotFound(missing)) && missing@ == id@
            },
            None => r matches Ok(TaskResult::Progress(p)) && p == s.progress_over(
                s.listed(all_filter()),
            ),
        },
        _ => true,
    }
}

/// What a command does to the store and answers, without the backend.
/// The commands that start and complete tasks need the backend and are
/// refused here.
pub open spec fn handled(
    pre: StoreView,
    cmd: TaskCommand,
    post: StoreView,
    r: Result<TaskResult, OsError>,
) -> bool {
    match cmd {
        TaskCommand::Create(args) => exists|
            input: CreateTaskInput,
            id: Seq<char>,
            now: Timestamp,
            inner: Result<Task, OsError>,
        |
            input@ == create_view(args) && TaskId::is_well_formed(id) && TaskService::create_post(
                pre,
                input,
                id,
                now,
                post,
                inner,
            ) && r == as_one(inner),
        TaskCommand::Update(args) => exists|
            input: UpdateTaskInput,
            now: Timestamp,
            inner: Result<Task, OsError>,
        |
            input@ == patch_view(args) && TaskService::update_post(
                pre,
                args.id@,
                input,
                now,
                post,
                inner,
            ) && r == as_one(inner),
        TaskCommand::Reopen { id } => exists|now: Timestamp, inner: Result<Task, OsError>|
            TaskService::reopen_post(pre, id@, now, post, inner) && r == as_one(inner),
        TaskCommand::Delete { id } => if pre.contains(id@) {
            r matches Ok(TaskResult::Deleted) && post == pre.without_subtree(id@)
        } else {
            r matches Err(OsError::TaskNotFound(missing)) && missing@ == id@ && post == pre
        },
        TaskCommand::Block(args) => exists|inner: Result<Task, OsError>|
            TaskService::add_blocker_post(pre, args.id@, args.by@, post, inner) && r == as_one(
                inner,
            ),
        TaskCommand::Unblock(args) => exists|inner: Result<Task, OsError>|
            TaskService::remove_blocker_post(pre, args.id@, args.by@, post, inner) && r == as_one(
                inner,
            ),
        TaskCommand::Start { .. } => r matches Err(OsError::NotARepository) && post == pre,
        TaskCommand::Complete(_) => r matches Err(OsError::NotARepository) && post == pre,
        reading => post == pre && answered(pre, reading, r),
    }
}

/// Carries out a task command on the store. The commands that start and
/// complete tasks are for `handle_workflow`.
pub fn handle(svc: &mut TaskService, cmd: TaskCommand) -> (r: Result<TaskResult, OsError>)
    requires
        old(svc)@.wf(),
    ensures
        final(svc)@.wf(),
        handled(old(svc)@, cmd, final(svc)@, r),
{
    match cmd {
        TaskCommand::Create(args) => {
            let input = CreateTaskInput {
                description: args.description,
                context: args.context,
                parent_id: args.parent,
                priority: args.priority,
                blocked_by: args.blocked_by,
            };
            let inner = svc.create(&input);
            let r = match inner {
                Ok(t) => Ok(TaskResult::One(t)),
                Err(e) => Err(e),
            };
            proof {
                let (id, now) = choose|id: Seq<char>, now: Timestamp|
                    TaskId::is_well_formed(id) && TaskService::create_post(
                        old(svc)@,
                        input,
                        id,
                        now,
                        svc@,
                        inner,
                    );
                assert(input@ == create_view(args) && TaskId::is_well_formed(id)
                    && TaskService::create_post(old(svc)@, input, id, now, svc@, inner) && r
                    == as_one(inner));
            }
            r
        },
        TaskCommand::Get { id } => {
            match svc.get(&id) {
                Err(e) => Err(e),
                Ok(task) => Ok(TaskResult::OneWithContext(get_task_with_context(&svc.store, task))),
            }
        },
        TaskCommand::List(args) => {
            let depth = if args.milestones {
                Some(0)
            } else if args.tasks {
                Some(1)
            } else if args.subtasks {
                Some(2)
            } else {
                None
            };
            let filter = ListTasksFilter {
                parent_id: args.parent,
                ready: args.ready,
                completed: if args.completed {
                    Some(true)
                } else {
                    None
                },
                depth,
                archived: Some(false),
            };
            match svc.list(&filter) {
                Ok(tasks) => Ok(TaskResult::Many(tasks)),
                Err(e) => Err(e),
            }
        },
        TaskCommand::Update(args) => {
            let input = UpdateTaskInput {
                description: args.description,
                context: args.context,
                priority: args.priority,
                parent_id: args.parent,
            };
            let inner = svc.update(&args.id, &input);
            let r = match inner {
                Ok(t) => Ok(TaskResult::One(t)),
                Err(e) => Err(e),
            };
            proof {
                let now = choose|now: Timestamp|
                    TaskService::update_post(old(svc)@, args.id@, input, now, svc@, inner);
                assert(input@ == patch_view(args) && TaskService::update_post(
                    old(svc)@,
                    args.id@,
                    input,
                    now,
                    svc@,
                    inner,
                ) && r == as_one(inner));
            }
            r
        },
        TaskCommand::Reopen { id } => {
            let inner = svc.reopen(&id);
            let r = match inner {
                Ok(t) => Ok(TaskResult::One(t)),
                Err(e) => Err(e),
            };
            proof {
                let now = choose|now: Timestamp|
                    TaskService::reopen_post(old(svc)@, id@, now, svc@, inner);
                assert(TaskService::reopen_post(old(svc)@, id@, now, svc@, inner) && r == as_one(
                    inner,
                ));
            }
            r
        },
        TaskCommand::Delete { id } => {
            match svc.delete(&id) {
                Ok(()) => Ok(TaskResult::Deleted),
                Err(e) => Err(e),
            }
        },
        TaskCommand::Block(args) => {
            let inner = svc.add_blocker(&args.id, &args.by);
            let r = match inner {
                Ok(t) => Ok(TaskResult::One(t)),
                Err(e) => Err(e),
            };
            assert(TaskService::add_blocker_post(old(svc)@, args.id@, args.by@, svc@, inner) && r
                == as_one(inner));
            r
        },
        TaskCommand::Unblock(args) => {
            let inner = svc.remove_blocker(&args.id, &args.by);
            let r = match inner {
                Ok(t) => Ok(TaskResult::One(t)),
                Err(e) => Err(e),
            };
            assert(TaskService::remove_blocker_post(old(svc)@, args.id@, args.by@, svc@, inner)
                && r == as_one(inner));
            r
        },
        TaskCommand::NextReady(args) => {
            let found = match &args.milestone {
                Some(id) => svc.next_ready(Some(id)),
                None => svc.next_ready(None),
            };
            match found {
                Err(e) => Err(e),
                Ok(None) => Ok(TaskResult::MaybeOneWithContext(None)),
                Ok(Some(id)) => {
                    proof {
                        crate::readiness::law_next_ready_is_unblocked(
                            svc@,
                            opt_id_view(args.milestone),
                        );
                    }
                    match svc.get(&id) {
                        Err(e) => Err(e),
                        Ok(task) => Ok(
                            TaskResult::MaybeOneWithContext(
                                Some(get_task_with_context(&svc.store, task)),
                            ),
                        ),
                    }
                },
            }
        },
        TaskCommand::Tree(args) => match &args.id {
            Some(id) => match build_tree_for_task(svc, id) {
                Ok(tree) => Ok(TaskResult::Tree(tree)),
                Err(e) => Err(e),
            },
            None => Ok(TaskResult::Trees(build_all_trees(svc))),
        },
        TaskCommand::Search(args) => Ok(TaskResult::Many(search_tasks(svc, args.query.as_str()))),
        TaskCommand::Progress(args) => {
            let id = match &args.id {
                Some(id) => Some(id),
                None => None,
            };
            match calculate_progress(svc, id) {
                Ok(p) => Ok(TaskResult::Progress(p)),
                Err(e) => Err(e),
            }
        },
        TaskCommand::Start { .. } => Err(OsError::NotARepository),
        TaskCommand::Complete(_) => Err(OsError::NotARepository),
    }
}

/// What a command does to the store and answers, with the backend at
/// hand.
pub open spec fn handled_with_backend(
    pre: StoreView,
    cmd: TaskCommand,
    post: StoreView,
    r: Result<TaskResult, OsError>,
) -> bool {
    match cmd {
        TaskCommand::Start { id } => exists|inner: Result<Task, OsError>|
            pre.start_followed(id@, post, inner) && r == as_one(inner),
        TaskCommand::Complete(args) => exists|inner: Result<Task, OsError>|
            pre.completed(
                args.id@,
                opt_str_view(args.result),
                strs_view(args.learnings@),
                true,
                post,
                inner,
            ) && r == as_one(inner),
        other => handled(pre, other, post, r),
    }
}

/// Carries out a task command with the backend at hand: a task is
/// started by following its blockers to what can be started, and
/// completed with its learnings; every other command is carried out on
/// the store alone.
pub fn handle_workflow<V: VcsBackend>(workflow: &mut TaskWorkflowService<V>, cmd: TaskCommand) -> (r:
    Result<TaskResult, OsError>)
    requires
        old(workflow)@.wf(),
    ensures
        final(workflow)@.wf(),
        handled_with_backend(old(workflow)@, cmd, final(workflow)@, r),
{
    match cmd {
        TaskCommand::Start { id } => {
            let inner = workflow.start_follow_blockers(&id);
            let r = match inner {
                Ok(t) => Ok(TaskResult::One(t)),
                Err(e) => Err(e),
            };
            assert(old(workflow)@.start_followed(id@, workflow@, inner) && r == as_one(inner));
            r
        },
        TaskCommand::Complete(args) => {
            let result = match &args.result {
                Some(text) => Some(text.as_str()),
                None => None,
            };
            let inner = workflow.complete_with_learnings(&args.id, result, &args.learnings);
            let r = match inner {
                Ok(t) => Ok(TaskResult::One(t)),
                Err(e) => Err(e),
            };
            assert(old(workflow)@.completed(
                args.id@,
                opt_str_view(args.result),
                strs_view(args.learnings@),
                true,
                workflow@,
                inner,
            ) && r == as_one(inner));
            r
        },
        other => handle(&mut workflow.task_service, other),
    }
}

/// Carries out a task command where the backend may be missing: a task
/// is deleted from the store, and then the bookmarks that it and the
/// tasks below it held are deleted on the backend, as far as that goes.
/// Every other command is carried out on the store alone.
pub fn handle_delete<V: VcsBackend>(svc: &mut TaskService, cmd: TaskCommand, vcs: Option<&V>) -> (r:
    Result<TaskResult, OsError>)
    requires
        old(svc)@.wf(),
    ensures
        final(svc)@.wf(),
        handled(old(svc)@, cmd, final(svc)@, r),
{
    match cmd {
        TaskCommand::Delete { id } => {
            let bookmarks = svc.store.get_all_bookmarks(&id);
            if let Err(e) = svc.delete(&id) {
                return Err(e);
            }
            if let Some(backend) = vcs {
                let mut i: usize = 0;
                while i < bookmarks.len()
                    invariant
                        i <= bookmarks@.len(),
                    decreases bookmarks@.len() - i,
                {
                    let _ = backend.delete_bookmark(bookmarks[i].as_str());
                    i += 1;
                }
            }
            Ok(TaskResult::Deleted)
        },
        other => handle(svc, other),
    }
}

} // verus!
