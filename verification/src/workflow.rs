//! The workflow: starting and completing tasks together with the
//! version-control backend. The backend acts first; the store is written
//! only after the backend has done its part.

use vstd::prelude::*;

use crate::error::{NotReadyReason, OsError};
use crate::id::{LearningId, TaskId};
use crate::model::StoreView;
use crate::order::tasks_view;
use crate::store::{opt_text, Store};
use crate::task_service::TaskService;
use crate::types::{
    ids_view, lids_view, opt_id_view, opt_str_view, strs_view, LifecycleState, Task, TaskView,
    Timestamp,
};
use crate::vcs::{CommitResult, VcsBackend, VcsError};

verus! {

/// What is to be done with the backend when a task is started.
#[derive(Debug, Clone)]
pub enum StartPlan {
    /// The task was started before: its bookmark is checked out again.
    Resume { bookmark: String },
    /// The task is started now under this bookmark.
    Begin { bookmark: String },
}

/// The name of the bookmark of a task that has none yet.
pub open spec fn bookmark_name(id: Seq<char>) -> Seq<char> {
    "task/"@ + id
}

/// What is to be done with the backend when a task is completed.
#[derive(Debug, Clone)]
pub enum CompletePlan {
    /// The task is completed already: nothing is done.
    Done(Task),
    /// The working copy is committed and the task is completed; for a
    /// milestone the bookmarks of all tasks below it are cleaned up.
    Commit { milestone: bool, task: Task },
}

/// The message of the commit that completes a task.
pub open spec fn commit_message(
    milestone: bool,
    description: Seq<char>,
    result: Option<Seq<char>>,
) -> Seq<char> {
    (if milestone {
        "Milestone: "@
    } else {
        "Complete: "@
    }) + description + "\n\n"@ + (if result is Some {
        result->0
    } else {
        Seq::empty()
    })
}

/// The commit went through, or there was nothing to commit.
pub open spec fn commit_accepted(committed: Result<CommitResult, VcsError>) -> bool {
    committed is Ok || committed == Err::<CommitResult, VcsError>(VcsError::NothingToCommit)
}

/// The answer of a completion without the time at which it was made.
pub open spec fn without_time(r: Result<(Task, Timestamp), OsError>) -> Result<Task, OsError> {
    match r {
        Ok(done) => Ok(done.0),
        Err(e) => Err(e),
    }
}

/// The walk up went past the task `p`: it was neither cancelled nor
/// archived before, and in `post` it is completed, none of its children is
/// pending, and neither it nor an ancestor of it waits for a blocker.
pub open spec fn auto_completed(pre: StoreView, post: StoreView, p: Seq<char>) -> bool {
    &&& !pre.task(p).cancelled
    &&& !pre.task(p).archived
    &&& post.task(p).completed
    &&& !post.has_pending_children(p)
    &&& !post.effectively_blocked(p)
}

/// The walk up along `above`, nearest first, ended at the `k`-th of them:
/// it completed each one before that, and the `k`-th, where there is one,
/// is not completed by its last child.
pub open spec fn walk_ended(pre: StoreView, above: Seq<Seq<char>>, post: StoreView, k: int) -> bool {
    &&& 0 <= k <= above.len()
    &&& forall|j: int| 0 <= j < k ==> auto_completed(pre, post, #[trigger] above[j])
    &&& k < above.len() ==> !post.bubbles_to(above[k])
}

/// The walk up from `id` ended at the `k`-th ancestor: `post` is the
/// store after the walk went past the ancestors before it, one after the
/// other, and these are completed. Where the walk did not fail, the
/// `k`-th, if there is one, is not completed by its last child, and the
/// `completed` flag of every other task is as it was; where it failed, it
/// failed on the `k`-th, with a failure of the backend or of the store,
/// and left it as it was.
pub open spec fn bubble_stopped(
    pre: StoreView,
    id: Seq<char>,
    post: StoreView,
    r: Result<(), OsError>,
    k: int,
) -> bool {
    let above = pre.ancestors(id);
    &&& 0 <= k <= above.len()
    &&& pre.walked_to(above, k as nat, post)
    &&& forall|j: int| 0 <= j < k ==> post.task(#[trigger] above[j]).completed
    &&& r is Ok ==> walk_ended(pre, above, post, k) && pre.completes_only(post, above.take(k))
    &&& r matches Err(e) ==> k < above.len() && step_failed(e)
}

/// `e` is what a step of the walk up fails with: a failure of the backend,
/// or the refusal of the store to take a learning.
pub open spec fn step_failed(e: OsError) -> bool {
    backend_failed(e) || e is Database
}

/// The first commit that one of `tasks` was started at.
pub open spec fn first_start(tasks: Seq<TaskView>) -> Option<Seq<char>>
    decreases tasks.len(),
{
    if tasks.len() == 0 {
        None
    } else if tasks[0].start_commit is Some {
        tasks[0].start_commit
    } else {
        first_start(tasks.skip(1))
    }
}

/// The commit that a cleanup checks out: the commit `own` that the task
/// was started at, or else the first commit that a task of `below` was
/// started at, or else the current commit `head`. Without any of them
/// there is nothing to check out.
pub open spec fn target_of(
    own: Option<Seq<char>>,
    below: Seq<TaskView>,
    head: Option<Seq<char>>,
) -> Option<Seq<char>> {
    if own is Some {
        own
    } else if first_start(below) is Some {
        first_start(below)
    } else {
        head
    }
}

/// `e` is a failure of the backend as a task operation hands it on.
pub open spec fn backend_failed(e: OsError) -> bool {
    exists|v: VcsError| e == crate::error::from_vcs(v)
}

/// The failure `e` of the backend as a task operation hands it on.
fn handed_on(e: VcsError) -> (r: OsError)
    ensures
        r == crate::error::from_vcs(e),
        backend_failed(r),
{
    OsError::from(e)
}

/// The texts of `ids` in their order, with a comma and a blank between
/// each two.
pub open spec fn comma_joined(ids: Seq<Seq<char>>) -> Seq<char>
    decreases ids.len(),
{
    if ids.len() == 0 {
        Seq::empty()
    } else if ids.len() == 1 {
        ids[0]
    } else {
        comma_joined(ids.drop_last()) + ", "@ + ids.last()
    }
}

/// What the refusal says of a task that waits for blockers: the task by
/// its description, the blockers it waits for, and the task to start in
/// its place, if there is one.
pub open spec fn blocked_message(
    description: Seq<char>,
    blockers: Seq<Seq<char>>,
    next: Option<Seq<char>>,
) -> Seq<char> {
    "Cannot start '"@ + description + "' - blocked by "@ + comma_joined(blockers) + ". "@ + (match next {
        Some(n) => "Start '"@ + n + "' instead."@,
        None => "No ready tasks available."@,
    })
}

/// What the refusal says of a task with children that are not finished:
/// both the task and the task to start in its place by their
/// descriptions.
pub open spec fn children_message(description: Seq<char>, ready: Seq<char>) -> Seq<char> {
    "Cannot start '"@ + description + "' - has incomplete children. Start '"@ + ready
        + "' instead."@
}

/// What the refusal says of a task under which nothing is ready.
pub open spec fn nothing_ready_message(description: Seq<char>) -> Seq<char> {
    "Cannot start '"@ + description + "' - no ready tasks in subtree (all complete or blocked)."@
}

/// The message of the refusal `e`.
pub open spec fn message_of(e: OsError) -> Seq<char> {
    match e {
        OsError::NotNextReady { message, .. } => message@,
        _ => Seq::empty(),
    }
}

/// The identifiers with a comma and a blank between each two.
fn comma_list(ids: &Vec<TaskId>) -> (out: String)
    ensures
        out@ == comma_joined(ids_view(ids@)),
{
    let mut out = String::new();
    let mut i: usize = 0;
    assert(ids_view(ids@).take(0) =~= Seq::<Seq<char>>::empty());
    while i < ids.len()
        invariant
            i <= ids@.len(),
            out@ == comma_joined(ids_view(ids@).take(i as int)),
        decreases ids@.len() - i,
    {
        let ghost before = ids_view(ids@).take(i as int);
        let ghost longer = ids_view(ids@).take(i + 1);
        assert(longer.drop_last() =~= before);
        assert(longer.last() == ids@[i as int]@);
        if i > 0 {
            out = out.concat(", ");
        }
        out = out.concat(ids[i].as_str());
        assert(out@ =~= comma_joined(longer));
        i += 1;
    }
    assert(ids_view(ids@).take(ids@.len() as int) =~= ids_view(ids@));
    out
}

/// `e` says that `requested` is not the next ready task.
pub open spec fn is_not_next_ready(
    e: OsError,
    requested: Seq<char>,
    next_ready: Option<Seq<char>>,
) -> bool {
    &&& e matches OsError::NotNextReady { requested: r, next_ready: n, .. }
    &&& r@ == requested
    &&& opt_id_view(n) == next_ready
}

impl StoreView {
    /// The store with each of `ids` started at `now`, unless it was
    /// started before.
    pub open spec fn with_started(self, ids: Seq<Seq<char>>, now: Timestamp) -> StoreView
        decreases ids.len(),
    {
        if ids.len() == 0 {
            self
        } else {
            self.with_task(self.task(ids[0]).started(now)).with_started(ids.skip(1), now)
        }
    }

    /// The store after the start of `id` was recorded: the task holds the
    /// bookmark and the commit it was started at and is started, and so is
    /// every ancestor. The ancestors get neither bookmark nor commit.
    pub open spec fn start_recorded(
        self,
        id: Seq<char>,
        bookmark: Seq<char>,
        commit: Seq<char>,
        now: Timestamp,
    ) -> StoreView {
        self.with_task(
            self.task(id).with_bookmark(Some(bookmark), now).with_start_commit(commit, now).started(
                now,
            ),
        ).with_started(self.ancestors(id), now)
    }

    /// The store after the bookmark of `id` was forgotten at `now`: the
    /// store itself where `id` is not stored.
    pub open spec fn bookmark_forgotten(self, id: Seq<char>, now: Timestamp) -> StoreView {
        if self.contains(id) {
            self.with_task(self.task(id).with_bookmark(None, now))
        } else {
            self
        }
    }

    /// The cleanup after `task` may forget the bookmark of the record `t`:
    /// `t` is the record of the task, which held a bookmark when it was
    /// read, or of a task below it that holds one.
    pub open spec fn sweeps(self, task: TaskView, t: TaskView) -> bool {
        ||| t.id == task.id && task.bookmark is Some
        ||| self.is_ancestor(task.id, t.id) && t.bookmark is Some
    }

    /// `post` is this store after the cleanup of `task` and of what lies
    /// below it at `now`: every record is as it was, or it is a record
    /// that the cleanup may sweep, with its bookmark forgotten at `now`.
    /// Edges and learnings are as they were.
    pub open spec fn bookmarks_swept(self, task: TaskView, post: StoreView, now: Timestamp) -> bool {
        &&& post.tasks.len() == self.tasks.len()
        &&& post.blockers == self.blockers
        &&& post.learnings == self.learnings
        &&& forall|i: int|
            0 <= i < self.tasks.len() ==> #[trigger] post.tasks[i] == self.tasks[i] || (self.sweeps(
                task,
                self.tasks[i],
            ) && post.tasks[i] == self.tasks[i].with_bookmark(None, now))
    }

    /// `post` and `r` are what the completion of `id` at `now` leaves
    /// behind and answers, as `TaskService::complete_with_learnings_at`
    /// says, under some commit and with the identifiers that a completion
    /// draws.
    pub open spec fn written(
        self,
        id: Seq<char>,
        result: Option<Seq<char>>,
        learnings: Seq<Seq<char>>,
        now: Timestamp,
        post: StoreView,
        r: Result<Task, OsError>,
    ) -> bool {
        exists|head: Option<Seq<char>>, ids: Seq<Seq<char>>|
            TaskService::drawn_for(self, id, learnings.len(), ids) && TaskService::complete_post(
                self,
                id,
                result,
                learnings,
                head,
                ids,
                now,
                post,
                r,
            )
    }

    /// The completion of `id` was refused before anything was written:
    /// by the backend, or by the store.
    pub open spec fn refused_early(
        self,
        id: Seq<char>,
        result: Option<Seq<char>>,
        learnings: Seq<Seq<char>>,
        e: OsError,
    ) -> bool {
        backend_failed(e) || exists|now: Timestamp|
            self.written(id, result, learnings, now, self, Err::<Task, OsError>(e))
    }

    /// `s2` is `s1` after the cleanup of the task `id`: the bookmark of
    /// the task is forgotten where the backend deleted it, and nothing
    /// else has changed.
    pub open spec fn cleaned(self, id: Seq<char>, s1: StoreView, now: Timestamp, s2: StoreView) -> bool {
        s2 == s1 || (self.task(id).bookmark is Some && s2 == s1.bookmark_forgotten(id, now))
    }

    /// One step of the walk up, from this store to `b`: a parent that is
    /// completed already is passed over; any other is completed without
    /// result and learnings, a milestone with the cleanup of what lies
    /// below it.
    pub open spec fn stepped(self, p: Seq<char>, b: StoreView) -> bool {
        if self.task(p).completed {
            b == self
        } else {
            exists|now: Timestamp, mid: StoreView, t: Task|
                self.written(p, None, Seq::empty(), now, mid, Ok::<Task, OsError>(t))
                    && self.after_write(p, mid, now, b)
        }
    }

    /// What follows the write `s1` of a completion of `id` at `now` that
    /// is not followed by a walk up: for a milestone the cleanup of what
    /// lies below it, for any other task nothing.
    pub open spec fn after_write(self, id: Seq<char>, s1: StoreView, now: Timestamp, post: StoreView) -> bool {
        if self.depth(id) == 0 {
            s1.bookmarks_swept(self.task(id), post, now)
        } else {
            post == s1
        }
    }

    /// `b` is this store after the walk up went past the first `k` of
    /// `above`, one after the other, each of them completed by its last
    /// child when its turn came.
    pub open spec fn walked_to(self, above: Seq<Seq<char>>, k: nat, b: StoreView) -> bool
        decreases k,
    {
        if k == 0 {
            b == self
        } else {
            let p = above[k - 1];
            let before = (k - 1) as nat;
            exists|mid: StoreView|
                self.walked_to(above, before, mid) && mid.bubbles_to(p) && #[trigger] mid.stepped(
                    p,
                    b,
                )
        }
    }

    /// `post` is this store after the walk up along `above`: the walk went
    /// past the ancestors up to the first that is not completed by its
    /// last child.
    pub open spec fn walk_done(self, above: Seq<Seq<char>>, post: StoreView) -> bool {
        exists|k: nat|
            k <= above.len() && #[trigger] self.walked_to(above, k, post) && (k < above.len()
                ==> !post.bubbles_to(above[k as int]))
    }

    /// What follows the write `s1` of the completion of `id` at `now`: for
    /// a milestone the cleanup of what lies below it; for any other task
    /// nothing, or with `up` the cleanup of the task and the walk up.
    pub open spec fn after_completion(
        self,
        id: Seq<char>,
        up: bool,
        s1: StoreView,
        now: Timestamp,
        post: StoreView,
    ) -> bool {
        if self.depth(id) == 0 || !up {
            self.after_write(id, s1, now, post)
        } else {
            exists|s2: StoreView|
                self.cleaned(id, s1, now, s2) && s2.walk_done(self.ancestors(id), post)
        }
    }

    /// The store `post` and the task `t` that a completion of `id` hands
    /// back on success, whatever the backend did: the store wrote the
    /// completion as `TaskService::complete_with_learnings_at` says, `t`
    /// is what it handed back, and `post` is what follows that write.
    pub open spec fn completion_done(
        self,
        id: Seq<char>,
        result: Option<Seq<char>>,
        learnings: Seq<Seq<char>>,
        up: bool,
        t: Task,
        post: StoreView,
    ) -> bool {
        exists|now: Timestamp, s1: StoreView|
            self.written(id, result, learnings, now, s1, Ok::<Task, OsError>(t))
                && self.after_completion(id, up, s1, now, post)
    }

    /// What the backend's answer to a commit and the store make of the
    /// completion of `id`: the failure of the commit and no change, or
    /// what `TaskService::complete_with_learnings_at` does with `head` as
    /// the commit, `ids` and `now`.
    pub open spec fn after_commit(
        self,
        id: Seq<char>,
        result: Option<Seq<char>>,
        learnings: Seq<Seq<char>>,
        committed: Result<CommitResult, VcsError>,
        head: Option<Seq<char>>,
        ids: Seq<Seq<char>>,
        now: Timestamp,
        post: StoreView,
        r: Result<Task, OsError>,
    ) -> bool {
        if commit_accepted(committed) {
            TaskService::complete_post(self, id, result, learnings, head, ids, now, post, r)
        } else {
            post == self && committed is Err && r == Err::<Task, OsError>(
                crate::error::from_vcs(committed->Err_0),
            )
        }
    }

    /// What the walk up from a completed task `id` leaves behind and
    /// answers. The ancestors are taken nearest first; the walk completes
    /// them one after the other and ends at the first that is not
    /// completed by its last child, which it leaves as it is. Where the
    /// nearest ancestor is of that kind, or there is none, nothing changes
    /// and nothing fails.
    pub open spec fn bubbled_up(self, id: Seq<char>, post: StoreView, r: Result<(), OsError>) -> bool {
        let above = self.ancestors(id);
        &&& (above.len() == 0 || !self.bubbles_to(above[0])) ==> r is Ok && post == self
        &&& exists|k: int| bubble_stopped(self, id, post, r, k)
    }

    /// `post` holds the tasks of this store with the same records but for
    /// bookmarks that were removed, and the same edges and learnings.
    pub open spec fn same_but_bookmarks(self, post: StoreView) -> bool {
        &&& post.tasks.len() == self.tasks.len()
        &&& post.blockers == self.blockers
        &&& post.learnings == self.learnings
        &&& forall|i: int|
            0 <= i < self.tasks.len() ==> #[trigger] post.tasks[i] == (TaskView {
                bookmark: post.tasks[i].bookmark,
                updated_at: post.tasks[i].updated_at,
                ..self.tasks[i]
            })
    }

    /// `post` holds the same tasks under the same parents and the same
    /// blocker edges, and the learnings of this store at the front of its
    /// own; no task was cancelled, archived or reopened on the way: what
    /// changed is that tasks were completed, learnings added and bookmarks
    /// removed.
    pub open spec fn same_shape(self, post: StoreView) -> bool {
        &&& self.same_forest(post)
        &&& post.blockers == self.blockers
        &&& self.learnings.is_prefix_of(post.learnings)
        &&& forall|i: int|
            0 <= i < self.tasks.len() ==> {
                &&& (#[trigger] post.tasks[i]).cancelled == self.tasks[i].cancelled
                &&& post.tasks[i].archived == self.tasks[i].archived
                &&& self.tasks[i].completed ==> post.tasks[i].completed
            }
    }

    /// Every task but those of `these` has in `post` the `completed` flag
    /// that it has in this store.
    pub open spec fn completes_only(self, post: StoreView, these: Seq<Seq<char>>) -> bool {
        forall|x: Seq<char>|
            self.contains(x) && !these.contains(x) ==> (#[trigger] post.task(x)).completed
                == self.task(x).completed
    }

    /// The task `t` is what the completion of `id` with `learnings` hands
    /// back, and `post` holds what the completion wrote: the task is
    /// completed, it holds each learning as its own, its parent holds a
    /// copy of each, and `t` carries its blocker edges and its depth as
    /// `post` has them.
    pub open spec fn holds_completion(
        self,
        id: Seq<char>,
        learnings: Seq<Seq<char>>,
        t: Task,
        post: StoreView,
    ) -> bool {
        &&& t@.id == id
        &&& t@.completed
        &&& post.task(id).completed
        &&& forall|k: int|
            0 <= k < learnings.len() ==> post.has_note(id, Some(id), #[trigger] learnings[k])
        &&& self.task(id).parent_id matches Some(parent) ==> forall|k: int|
            0 <= k < learnings.len() ==> post.has_note(parent, Some(id), #[trigger] learnings[k])
        &&& ids_view(t.blocked_by@) == post.blockers_of(id)
        &&& ids_view(t.blocks@) == post.blocked_by_it(id)
        &&& t.depth == Some(post.depth(id) as i32)
    }

    /// Which tasks the completion of `id` completed. With `up`, the walk up
    /// from `id` ended at the `k`-th ancestor, as `walk_ended` says;
    /// without, no ancestor was looked at and `k` is 0. The task and the
    /// ancestors before the `k`-th are the only tasks whose `completed`
    /// flag changed.
    pub open spec fn walked(self, id: Seq<char>, up: bool, post: StoreView, k: int) -> bool {
        let above = self.ancestors(id);
        &&& if up {
            walk_ended(self, above, post, k)
        } else {
            k == 0
        }
        &&& self.completes_only(post, above.take(k).push(id))
    }

    /// What completing leaves behind and answers for its plan, whatever
    /// the backend did.
    pub open spec fn complete_done(
        self,
        id: Seq<char>,
        result: Option<Seq<char>>,
        learnings: Seq<Seq<char>>,
        up: bool,
        plan: Result<CompletePlan, OsError>,
        post: StoreView,
        r: Result<Task, OsError>,
    ) -> bool {
        match plan {
            Err(e) => r == Err::<Task, OsError>(e) && post == self,
            Ok(CompletePlan::Done(task)) => r == Ok::<Task, OsError>(task) && post == self,
            Ok(CompletePlan::Commit { .. }) => {
                // success: the record handed back is the task's, completed with
                // `result` at some time under some commit
                &&& r matches Ok(t) ==> {
                    &&& self.completion_done(id, result, learnings, up, t, post)
                    &&& self.holds_completion(id, learnings, t, post)
                    &&& exists|head: Option<Seq<char>>, now: Timestamp|
                        t@ == self.task(id).finished(result, head, now)
                    &&& exists|k: int| self.walked(id, up, post, k)
                }
                // failure: before anything was written, by the backend or the
                // store; or on the walk up, after the task was completed
                &&& r matches Err(e) ==> (post == self && self.refused_early(
                    id,
                    result,
                    learnings,
                    e,
                )) || (up && post.task(id).completed && step_failed(e))
            },
        }
    }

    /// What completing leaves behind and answers, whatever the backend
    /// did; `up` says whether the ancestors are completed in turn.
    pub open spec fn completed(
        self,
        id: Seq<char>,
        result: Option<Seq<char>>,
        learnings: Seq<Seq<char>>,
        up: bool,
        post: StoreView,
        r: Result<Task, OsError>,
    ) -> bool {
        &&& self.same_shape(post)
        &&& exists|plan: Result<CompletePlan, OsError>|
            self.complete_planned(id, plan) && self.complete_done(
                id,
                result,
                learnings,
                up,
                plan,
                post,
                r,
            )
    }

    /// What `plan_complete` answers.
    pub open spec fn complete_planned(self, id: Seq<char>, r: Result<CompletePlan, OsError>) -> bool {
        let t = self.task(id);
        if !self.contains(id) {
            r matches Err(OsError::TaskNotFound(missing)) && missing@ == id
        } else if t.archived {
            r matches Err(OsError::CannotCompleteArchived)
        } else if t.cancelled {
            r matches Err(OsError::CannotCompleteCancelled)
        } else if t.completed {
            r matches Ok(CompletePlan::Done(task)) && task@.id == id && self.describes_fully(task)
        } else {
            &&& r matches Ok(CompletePlan::Commit { milestone, task })
            &&& milestone == (self.depth(id) == 0)
            &&& task@.id == id
            &&& self.describes_fully(task)
        }
    }

    /// A parent is completed by its last child exactly where no child of
    /// it is pending and it is not effectively blocked. A parent that is
    /// cancelled or archived cannot be completed: the walk up ends there.
    pub open spec fn bubbles_to(self, parent: Seq<char>) -> bool {
        &&& self.contains(parent)
        &&& !self.task(parent).cancelled
        &&& !self.task(parent).archived
        &&& !self.has_pending_children(parent)
        &&& !self.effectively_blocked(parent)
    }

    /// What `start` leaves behind and answers, whatever the backend did.
    pub open spec fn start_done(
        self,
        id: Seq<char>,
        plan: Result<StartPlan, OsError>,
        post: StoreView,
        r: Result<Task, OsError>,
    ) -> bool {
        match plan {
            Err(e) => r == Err::<Task, OsError>(e) && post == self,
            Ok(StartPlan::Resume { .. }) => post == self && match r {
                Ok(t) => t@.id == id && post.describes_fully(t),
                Err(e) => backend_failed(e),
            },
            Ok(StartPlan::Begin { bookmark }) => {
                ||| r matches Err(e) && backend_failed(e) && post == self
                ||| (r matches Ok(t) && t@.id == id && post.describes_fully(t) && exists|
                    commit: Seq<char>,
                    now: Timestamp,
                |
                    post == self.start_recorded(id, bookmark@, commit, now))
            },
        }
    }

    /// What `start` leaves behind and answers for its plan, whatever the
    /// backend did.
    pub open spec fn started(self, id: Seq<char>, post: StoreView, r: Result<Task, OsError>) -> bool {
        exists|plan: Result<StartPlan, OsError>|
            self.start_planned(id, plan) && self.start_done(id, plan, post, r)
    }

    /// What `start_follow_blockers` leaves behind and answers, whatever
    /// the backend did.
    pub open spec fn start_followed(
        self,
        root: Seq<char>,
        post: StoreView,
        r: Result<Task, OsError>,
    ) -> bool {
        match self.start_target(root, Seq::empty()) {
            crate::readiness::Resolution::Found(target) => self.started(target, post, r),
            outcome => {
                &&& post == self
                &&& r matches Err(e)
                &&& crate::readiness::refusal_says(e, outcome, root)
            },
        }
    }

    /// What `plan_start` answers.
    pub open spec fn start_planned(self, id: Seq<char>, r: Result<StartPlan, OsError>) -> bool {
        let t = self.task(id);
        if !self.contains(id) {
            r matches Err(OsError::TaskNotFound(missing)) && missing@ == id
        } else if t.state() == LifecycleState::Archived {
            r matches Err(OsError::CannotModifyArchived)
        } else if t.state() == LifecycleState::Cancelled {
            r matches Err(OsError::CannotStartCancelled)
        } else if t.state() == LifecycleState::Completed {
            r matches Err(OsError::CannotStartCompleted)
        } else if t.started_at is Some && t.bookmark is Some {
            r matches Ok(StartPlan::Resume { bookmark }) && bookmark@ == t.bookmark->0
        } else if self.effectively_blocked(id) {
            &&& r matches Err(e)
            &&& is_not_next_ready(e, id, self.next_ready(None))
            &&& e matches OsError::NotNextReady {
                reason: NotReadyReason::Blocked { blockers },
                ..
            }
            &&& ids_view(blockers@) == self.unsatisfied_blockers(id)
            &&& message_of(e) == blocked_message(
                t.description,
                self.unsatisfied_blockers(id),
                self.next_ready(None),
            )
        } else if self.next_ready(Some(id)) == Some(id) {
            r matches Ok(StartPlan::Begin { bookmark }) && bookmark@ == if t.bookmark is Some {
                t.bookmark->0
            } else {
                bookmark_name(id)
            }
        } else if self.next_ready(Some(id)) is Some {
            &&& r matches Err(e)
            &&& is_not_next_ready(e, id, self.next_ready(Some(id)))
            &&& e matches OsError::NotNextReady { reason: NotReadyReason::HasIncompleteChildren, .. }
            &&& message_of(e) == children_message(
                t.description,
                self.task(self.next_ready(Some(id))->0).description,
            )
        } else {
            &&& r matches Err(e)
            &&& is_not_next_ready(e, id, None)
            &&& e matches OsError::NotNextReady { reason: NotReadyReason::NoReadyTasksInSubtree, .. }
            &&& message_of(e) == nothing_ready_message(t.description)
        }
    }
}

/// Starting the ancestors keeps the forest and the invariant.
pub proof fn lemma_with_started(s: StoreView, ids: Seq<Seq<char>>, now: Timestamp)
    requires
        s.wf(),
        forall|k: int| 0 <= k < ids.len() ==> s.contains(#[trigger] ids[k]),
    ensures
        s.with_started(ids, now).wf(),
        s.same_forest(s.with_started(ids, now)),
        s.with_started(ids, now).blockers == s.blockers,
        s.with_started(ids, now).learnings == s.learnings,
        forall|x: Seq<char>|
            s.contains(x) && !ids.contains(x) ==> #[trigger] s.with_started(ids, now).task(x)
                == s.task(x),
    decreases ids.len(),
{
    if ids.len() > 0 {
        let first = ids[0];
        let record = s.task(first).started(now);
        crate::model::lemma_task_of(s, first);
        crate::model::lemma_with_task_at(s, s.index_of(first), record);
        let mid = s.with_task(record);
        let rest = ids.skip(1);
        assert forall|k: int| 0 <= k < rest.len() implies mid.contains(#[trigger] rest[k]) by {
            assert(rest[k] == ids[k + 1]);
        }
        lemma_with_started(mid, rest, now);
        let out = mid.with_started(rest, now);
        assert(s.same_forest(out)) by {
            assert(s.same_forest(mid));
            assert(mid.same_forest(out));
            assert forall|i: int| 0 <= i < s.tasks.len() implies (#[trigger] s.tasks[i]).id == (
            #[trigger] out.tasks[i]).id && s.tasks[i].parent_id == out.tasks[i].parent_id by {
                assert(s.tasks[i].id == mid.tasks[i].id);
                assert(mid.tasks[i].id == out.tasks[i].id);
            }
        }
        assert forall|x: Seq<char>| s.contains(x) && !ids.contains(x) implies #[trigger] out.task(x)
            == s.task(x) by {
            assert(x != first);
            if rest.contains(x) {
                let j = choose|j: int| 0 <= j < rest.len() && rest[j] == x;
                assert(ids[j + 1] == x);
            }
            assert(mid.contains(x));
        }
    }
}

/// The text of a message: `head` followed by `tail`.
fn message(head: &str, tail: &str) -> (r: String)
    ensures
        r@ == head@ + tail@,
{
    String::from_str(head).concat(tail)
}

/// The workflow on a store and a version-control backend.
pub struct TaskWorkflowService<V: VcsBackend> {
    pub task_service: TaskService,
    pub vcs: V,
}

impl<V: VcsBackend> View for TaskWorkflowService<V> {
    type V = StoreView;

    open spec fn view(&self) -> StoreView {
        self.task_service@
    }
}

impl<V: VcsBackend> TaskWorkflowService<V> {
    /// The workflow on a store and a backend.
    pub fn new(store: Store, vcs: V) -> (s: Self)
        ensures
            s@ == store@,
    {
        TaskWorkflowService { task_service: TaskService::new(store), vcs }
    }

    /// The task operations of this workflow.
    pub fn task_service(&self) -> (r: &TaskService)
        ensures
            r@ == self@,
    {
        &self.task_service
    }

    /// Checks that `task`, which is open for work, is the next ready task
    /// under itself.
    fn validate_start_target(&self, id: &TaskId, task: &Task) -> (r: Result<(), OsError>)
        requires
            self@.wf(),
            self@.describes(*task),
            task@.id == id@,
        ensures
            if self@.effectively_blocked(id@) {
                &&& r matches Err(e)
                &&& is_not_next_ready(e, id@, self@.next_ready(None))
                &&& e matches OsError::NotNextReady {
                    reason: NotReadyReason::Blocked { blockers },
                    ..
                }
                &&& ids_view(blockers@) == self@.unsatisfied_blockers(id@)
                &&& message_of(e) == blocked_message(
                    task@.description,
                    self@.unsatisfied_blockers(id@),
                    self@.next_ready(None),
                )
            } else if self@.next_ready(Some(id@)) == Some(id@) {
                r is Ok
            } else if self@.next_ready(Some(id@)) is Some {
                &&& r matches Err(e)
                &&& is_not_next_ready(e, id@, self@.next_ready(Some(id@)))
                &&& e matches OsError::NotNextReady {
                    reason: NotReadyReason::HasIncompleteChildren,
                    ..
                }
                &&& message_of(e) == children_message(
                    task@.description,
                    self@.task(self@.next_ready(Some(id@))->0).description,
                )
            } else {
                &&& r matches Err(e)
                &&& is_not_next_ready(e, id@, None)
                &&& e matches OsError::NotNextReady {
                    reason: NotReadyReason::NoReadyTasksInSubtree,
                    ..
                }
                &&& message_of(e) == nothing_ready_message(task@.description)
            },
    {
        let start = message("Cannot start '", task.description.as_str());
        if task.effectively_blocked {
            let blockers = self.task_service.store.unsatisfied_blockers(id);
            let next_ready = match self.task_service.next_ready(None) {
                Ok(n) => n,
                Err(e) => {
                    return Err(e);
                },
            };
            let advice = match &next_ready {
                Some(n) => message("Start '", n.as_str()).concat("' instead."),
                None => String::from_str("No ready tasks available."),
            };
            let listed = comma_list(&blockers);
            let text = start.concat("' - blocked by ").concat(listed.as_str()).concat(". ").concat(
                advice.as_str(),
            );
            assert(text@ =~= blocked_message(
                task@.description,
                self@.unsatisfied_blockers(id@),
                self@.next_ready(None),
            ));
            return Err(
                OsError::NotNextReady {
                    message: text,
                    requested: id.clone(),
                    next_ready,
                    reason: NotReadyReason::Blocked { blockers },
                },
            );
        }
        let next_ready = match self.task_service.next_ready(Some(id)) {
            Ok(n) => n,
            Err(e) => {
                return Err(e);
            },
        };
        match next_ready {
            Some(ready) => {
                if ready == *id {
                    Ok(())
                } else {
                    proof {
                        crate::readiness::law_next_ready_is_unblocked(self@, Some(id@));
                    }
                    let wanted = match self.task_service.store.get_task(&ready) {
                        Some(t) => t.description,
                        None => String::new(),
                    };
                    let text = start.concat("' - has incomplete children. Start '").concat(
                        wanted.as_str(),
                    ).concat("' instead.");
                    assert(text@ =~= children_message(
                        task@.description,
                        self@.task(ready@).description,
                    ));
                    Err(
                        OsError::NotNextReady {
                            message: text,
                            requested: id.clone(),
                            next_ready: Some(ready),
                            reason: NotReadyReason::HasIncompleteChildren,
                        },
                    )
                }
            },
            None => {
                let text = start.concat(
                    "' - no ready tasks in subtree (all complete or blocked).",
                );
                assert(text@ =~= nothing_ready_message(task@.description));
                Err(
                    OsError::NotNextReady {
                        message: text,
                        requested: id.clone(),
                        next_ready: None,
                        reason: NotReadyReason::NoReadyTasksInSubtree,
                    },
                )
            },
        }
    }

    /// What is to be done with the backend to start the task `id`, or why
    /// the task cannot be started.
    ///
    /// A task that is completed, cancelled or archived is not started. A
    /// task that was started and holds a bookmark is resumed. Any other
    /// task must be the next ready task under itself: a task that is
    /// effectively blocked, that has unfinished children, or under which
    /// nothing is ready is refused, and the refusal names the task to
    /// start instead.
    pub fn plan_start(&self, id: &TaskId) -> (r: Result<StartPlan, OsError>)
        requires
            self@.wf(),
        ensures
            self@.start_planned(id@, r),
    {
        let task = match self.task_service.get(id) {
            Ok(t) => t,
            Err(e) => {
                return Err(e);
            },
        };
        match task.lifecycle_state() {
            LifecycleState::Completed => {
                return Err(OsError::CannotStartCompleted);
            },
            LifecycleState::Cancelled => {
                return Err(OsError::CannotStartCancelled);
            },
            LifecycleState::Archived => {
                return Err(OsError::CannotModifyArchived);
            },
            _ => {},
        }
        if task.started_at.is_some() {
            if let Some(bookmark) = &task.bookmark {
                return Ok(StartPlan::Resume { bookmark: bookmark.clone() });
            }
        }
        if let Err(e) = self.validate_start_target(id, &task) {
            return Err(e);
        }
        let bookmark = match &task.bookmark {
            Some(b) => b.clone(),
            None => message("task/", id.as_str()),
        };
        Ok(StartPlan::Begin { bookmark })
    }

    /// Marks each of the ancestors of `id` as started at `now`, unless it
    /// was started before.
    fn bubble_start_to_ancestors(&mut self, id: &TaskId, now: Timestamp)
        requires
            old(self)@.wf(),
            old(self)@.contains(id@),
        ensures
            final(self)@ == old(self)@.with_started(old(self)@.ancestors(id@), now),
            final(self)@.wf(),
    {
        let above = self.task_service.store.ancestor_ids(id);
        let ghost pre = self@;
        let ghost all = ids_view(above@);
        let mut k: usize = 0;
        proof {
            assert(all.skip(0) =~= all);
            crate::model::lemma_ancestors_stored(pre, id@);
        }
        while k < above.len()
            invariant
                k <= above@.len(),
                all == ids_view(above@),
                self@.wf(),
                forall|j: int| 0 <= j < all.len() ==> self@.contains(#[trigger] all[j]),
                pre.with_started(all, now) == self@.with_started(all.skip(k as int), now),
            decreases above@.len() - k,
        {
            let ghost here = self@;
            proof {
                assert(all.skip(k as int)[0] == above@[k as int]@);
                assert(all.skip(k as int).skip(1) =~= all.skip(k + 1));
                assert(here.contains(all[k as int]));
            }
            let _ = self.task_service.store.start_task(&above[k], now);
            proof {
                let record = here.task(all[k as int]).started(now);
                crate::model::lemma_task_of(here, all[k as int]);
                crate::model::lemma_with_task_at(here, here.index_of(all[k as int]), record);
            }
            k += 1;
        }
    }

    /// Records that the task `id` was started on the backend under
    /// `bookmark` at `commit`: the task holds both and is started, and its
    /// ancestors are started too.
    pub fn record_start(&mut self, id: &TaskId, bookmark: &str, commit: &str, now: Timestamp) -> (r:
        Result<Task, OsError>)
        requires
            old(self)@.wf(),
        ensures
            final(self)@.wf(),
            !old(self)@.contains(id@) ==> old(self)@.not_found(final(self)@, id@, r),
            old(self)@.contains(id@) ==> (r matches Ok(t) && t@.id == id@
                && final(self)@.describes_fully(t) && final(self)@ == old(self)@.start_recorded(
                id@,
                bookmark@,
                commit@,
                now,
            )),
    {
        if !self.task_service.store.task_exists(id) {
            return Err(OsError::TaskNotFound(id.clone()));
        }
        let ghost pre = self@;
        let ghost t0 = pre.task(id@);
        proof {
            crate::model::lemma_task_of(pre, id@);
        }
        self.task_service.store.set_bookmark(id, bookmark, now);
        let ghost s1 = self@;
        proof {
            crate::model::lemma_with_task_at(pre, pre.index_of(id@), t0.with_bookmark(Some(bookmark@), now));
        }
        self.task_service.store.set_start_commit(id, commit, now);
        let ghost s2 = self@;
        proof {
            let t1 = t0.with_bookmark(Some(bookmark@), now);
            crate::model::lemma_task_of(s1, id@);
            crate::model::lemma_with_task_at(s1, s1.index_of(id@), t1.with_start_commit(commit@, now));
        }
        let _ = self.task_service.store.start_task(id, now);
        proof {
            let t2 = t0.with_bookmark(Some(bookmark@), now).with_start_commit(commit@, now);
            crate::model::lemma_task_of(s2, id@);
            crate::model::lemma_with_task_at(s2, s2.index_of(id@), t2.started(now));
            let i = pre.index_of(id@);
            assert(self@.tasks =~= pre.tasks.update(i, t2.started(now)));
            assert(self@ == pre.with_task(t2.started(now)));
            crate::model::lemma_with_task_at(pre, i, t2.started(now));
            crate::model::lemma_same_forest_ancestors(pre, self@, id@);
        }
        self.bubble_start_to_ancestors(id, now);
        proof {
            let mid = pre.with_task(
                t0.with_bookmark(Some(bookmark@), now).with_start_commit(commit@, now).started(now),
            );
            crate::model::lemma_ancestors_stored(mid, id@);
            lemma_with_started(mid, mid.ancestors(id@), now);
            crate::model::lemma_same_forest(mid, self@, id@);
        }
        self.task_service.get(id)
    }

    /// Starts the task `id`: the backend creates and checks out the
    /// bookmark of the task, then the store records the bookmark, the
    /// commit that is checked out, and the start of the task and of its
    /// ancestors.
    ///
    /// A task that was started before has its bookmark checked out again
    /// and nothing is written. A bookmark that exists already is used as it
    /// is. Where the plan refuses the task or the backend fails, the store
    /// is left as it was; the failure of the backend is handed on as
    /// `from_vcs` maps it.
    pub fn start(&mut self, id: &TaskId) -> (r: Result<Task, OsError>)
        requires
            old(self)@.wf(),
        ensures
            final(self)@.wf(),
            old(self)@.started(id@, final(self)@, r),
    {
        let plan = self.plan_start(id);
        let ghost planned = plan;
        let r = match plan {
            Err(e) => Err(e),
            Ok(StartPlan::Resume { bookmark }) => {
                match self.vcs.checkout(bookmark.as_str()) {
                    Err(e) => Err(handed_on(e)),
                    Ok(()) => self.task_service.get(id),
                }
            },
            Ok(StartPlan::Begin { bookmark }) => {
                let created = self.vcs.create_bookmark(bookmark.as_str(), None);
                let refused = match created {
                    Ok(()) => None,
                    Err(VcsError::BookmarkExists(_)) => None,
                    Err(e) => Some(e),
                };
                match refused {
                    Some(e) => Err(handed_on(e)),
                    None => match self.vcs.checkout(bookmark.as_str()) {
                        Err(e) => Err(handed_on(e)),
                        Ok(()) => match self.vcs.current_commit_id() {
                            Err(e) => Err(handed_on(e)),
                            Ok(commit) => {
                                let now = Timestamp::now();
                                let r = self.record_start(
                                    id,
                                    bookmark.as_str(),
                                    commit.as_str(),
                                    now,
                                );
                                assert(self@ == old(self)@.start_recorded(
                                    id@,
                                    bookmark@,
                                    commit@,
                                    now,
                                ));
                                r
                            },
                        },
                    },
                }
            },
        };
        assert(old(self)@.start_planned(id@, planned) && old(self)@.start_done(
            id@,
            planned,
            self@,
            r,
        ));
        r
    }

    /// Starts the task that is to be started when `root` is asked for:
    /// `root` itself, a leaf under it, or what its blockers lead to.
    pub fn start_follow_blockers(&mut self, root: &TaskId) -> (r: Result<Task, OsError>)
        requires
            old(self)@.wf(),
        ensures
            final(self)@.wf(),
            old(self)@.start_followed(root@, final(self)@, r),
    {
        let ghost outcome = self@.start_target(root@, Seq::empty());
        match self.task_service.resolve_start_target(root) {
            Err(e) => {
                assert(!(outcome is Found));
                let r = Err(e);
                assert(old(self)@.start_followed(root@, self@, r));
                r
            },
            Ok(target) => {
                assert(outcome == crate::readiness::Resolution::Found(target@));
                let r = self.start(&target);
                assert(old(self)@.start_followed(root@, self@, r));
                r
            },
        }
    }

    // ----- complete -----

    /// What is to be done with the backend to complete the task `id`, or
    /// why the task cannot be completed. An archived or cancelled task is
    /// not completed; a completed task is handed back as it is.
    pub fn plan_complete(&self, id: &TaskId) -> (r: Result<CompletePlan, OsError>)
        requires
            self@.wf(),
        ensures
            self@.complete_planned(id@, r),
    {
        let task = match self.task_service.get(id) {
            Ok(t) => t,
            Err(e) => {
                return Err(e);
            },
        };
        if task.archived {
            return Err(OsError::CannotCompleteArchived);
        }
        if task.cancelled {
            return Err(OsError::CannotCompleteCancelled);
        }
        if task.completed {
            return Ok(CompletePlan::Done(task));
        }
        let milestone = match task.depth {
            Some(d) => d == 0,
            None => false,
        };
        Ok(CompletePlan::Commit { milestone, task })
    }

    /// The message of the commit that completes a task.
    pub fn commit_message_for(milestone: bool, description: &str, result: Option<&str>) -> (r:
        String)
        ensures
            r@ == commit_message(milestone, description@, opt_text(result)),
    {
        let head = if milestone {
            "Milestone: "
        } else {
            "Complete: "
        };
        let tail = match result {
            Some(text) => text,
            None => "",
        };
        proof {
            reveal_strlit("");
        }
        let r = message(head, description).concat("\n\n").concat(tail);
        assert(r@ =~= commit_message(milestone, description@, opt_text(result)));
        r
    }

    /// Writes the completion of the task `id` to the store once the
    /// backend has answered the commit.
    ///
    /// Where the commit failed with anything but `NothingToCommit`, the
    /// failure is handed on and the store is left as it was: the task
    /// stays as it is. Otherwise the task is completed as
    /// `TaskService::complete_with_learnings_at` says, with `head` as its
    /// commit.
    pub fn complete_after_commit(
        &mut self,
        id: &TaskId,
        result: Option<&str>,
        learnings: &Vec<String>,
        committed: Result<CommitResult, VcsError>,
        head: Option<&str>,
        ids: &Vec<LearningId>,
        now: Timestamp,
    ) -> (r: Result<Task, OsError>)
        requires
            old(self)@.wf(),
        ensures
            final(self)@.wf(),
            !commit_accepted(committed) ==> final(self)@ == old(self)@ && committed is Err && r
                == Err::<Task, OsError>(crate::error::from_vcs(committed->Err_0)),
            commit_accepted(committed) ==> TaskService::complete_post(
                old(self)@,
                id@,
                opt_text(result),
                strs_view(learnings@),
                opt_text(head),
                lids_view(ids@),
                now,
                final(self)@,
                r,
            ),
    {
        match committed {
            Ok(_) => {},
            Err(VcsError::NothingToCommit) => {},
            Err(e) => {
                return Err(OsError::from(e));
            },
        }
        self.task_service.complete_with_learnings_at(id, result, learnings, head, ids, now)
    }

    /// Whether the parent `parent` is completed by its last child: whether
    /// it is neither cancelled nor archived, no child of it is pending and
    /// it is not effectively blocked.
    pub fn bubbles_to(&self, parent: &TaskId) -> (r: bool)
        requires
            self@.wf(),
        ensures
            r == self@.bubbles_to(parent@),
    {
        match self.task_service.store.get_task(parent) {
            None => false,
            Some(stored) => !stored.cancelled && !stored.archived
                && !self.task_service.store.has_pending_children(parent)
                && !self.task_service.store.effectively_blocked(parent),
        }
    }

    /// Removes the bookmark of `id` from the store after the backend has
    /// deleted it.
    fn forget_bookmark(&mut self, id: &TaskId, now: Timestamp)
        requires
            old(self)@.wf(),
        ensures
            final(self)@.wf(),
            final(self)@ == old(self)@.bookmark_forgotten(id@, now),
            old(self)@.same_but_bookmarks(final(self)@),
    {
        let ghost pre = self@;
        self.task_service.store.clear_bookmark(id, now);
        proof {
            if pre.contains(id@) {
                crate::model::lemma_task_of(pre, id@);
                crate::model::lemma_with_task_at(
                    pre,
                    pre.index_of(id@),
                    pre.task(id@).with_bookmark(None, now),
                );
            }
        }
    }

    /// After a task was completed: checks out the commit the task was
    /// started at, or else the current commit, and deletes the bookmark of
    /// the task. Whatever fails here is passed over: the store has the
    /// last word.
    fn cleanup_after_task(&mut self, task: &Task, now: Timestamp)
        requires
            old(self)@.wf(),
        ensures
            final(self)@.wf(),
            task@.bookmark is None ==> final(self)@ == old(self)@,
            final(self)@ == old(self)@ || final(self)@ == old(self)@.bookmark_forgotten(
                task@.id,
                now,
            ),
            old(self)@.same_but_bookmarks(final(self)@),
    {
        if let Some(bookmark) = &task.bookmark {
            let none: Vec<Task> = Vec::new();
            let target = match Self::cleanup_target(&task.start_commit, &none, None) {
                Some(c) => Some(c),
                None => {
                    let head = match self.vcs.current_commit_id() {
                        Ok(h) => Some(h),
                        Err(_) => None,
                    };
                    Self::cleanup_target(&task.start_commit, &none, head)
                },
            };
            if let Some(target) = target {
                if self.vcs.checkout(target.as_str()).is_ok() {
                    if self.vcs.delete_bookmark(bookmark.as_str()).is_ok() {
                        self.forget_bookmark(&task.id, now);
                    }
                }
            }
        }
    }

    /// The commit to check out for the cleanup after a task: the commit
    /// the task was started at, or else the first commit that a task of
    /// `below` was started at, or else `head`, the current commit.
    pub fn cleanup_target(own: &Option<String>, below: &Vec<Task>, head: Option<String>) -> (r:
        Option<String>)
        ensures
            opt_str_view(r) == target_of(opt_str_view(*own), tasks_view(below@), opt_str_view(head)),
    {
        if let Some(c) = own {
            return Some(c.clone());
        }
        let ghost all = tasks_view(below@);
        let mut i: usize = 0;
        assert(all.skip(0) =~= all);
        while i < below.len()
            invariant
                i <= below@.len(),
                *own is None,
                all == tasks_view(below@),
                first_start(all) == first_start(all.skip(i as int)),
            decreases below@.len() - i,
        {
            assert(all.skip(i as int)[0] == below@[i as int]@);
            assert(all.skip(i as int).skip(1) =~= all.skip(i + 1));
            if let Some(c) = &below[i].start_commit {
                return Some(c.clone());
            }
            i += 1;
        }
        head
    }

    /// After a milestone was completed: checks out the commit the
    /// milestone was started at, or else the first commit that a task
    /// below it was started at, or else the current commit, and deletes
    /// the bookmarks of the tasks below the milestone and of the
    /// milestone. Without a commit to check out nothing is cleaned up.
    fn cleanup_after_milestone(&mut self, task: &Task, now: Timestamp)
        requires
            old(self)@.wf(),
        ensures
            final(self)@.wf(),
            old(self)@.bookmarks_swept(task@, final(self)@, now),
            old(self)@.same_but_bookmarks(final(self)@),
    {
        let descendants = self.task_service.store.get_all_descendants(&task.id);
        let target = match Self::cleanup_target(&task.start_commit, &descendants, None) {
            Some(c) => Some(c),
            None => {
                let head = match self.vcs.current_commit_id() {
                    Ok(h) => Some(h),
                    Err(_) => None,
                };
                Self::cleanup_target(&task.start_commit, &descendants, head)
            },
        };
        let target = match target {
            Some(t) => t,
            None => {
                return ;
            },
        };
        if self.vcs.checkout(target.as_str()).is_err() {
            return ;
        }
        let ghost pre = self@;
        let mut i: usize = 0;
        while i < descendants.len()
            invariant
                i <= descendants@.len(),
                self@.wf(),
                pre.wf(),
                pre == old(self)@,
                tasks_view(descendants@) == pre.descendants(task@.id),
                pre.bookmarks_swept(task@, self@, now),
            decreases descendants@.len() - i,
        {
            if let Some(bookmark) = &descendants[i].bookmark {
                if self.vcs.delete_bookmark(bookmark.as_str()).is_ok() {
                    let ghost mid = self@;
                    self.forget_bookmark(&descendants[i].id, now);
                    proof {
                        let below = descendants@[i as int]@;
                        assert(tasks_view(descendants@)[i as int] == below);
                        crate::model::lemma_filter_members(
                            pre.tasks,
                            |t: TaskView| pre.is_ancestor(task@.id, t.id),
                        );
                        assert(pre.tasks.contains(below));
                        let j = choose|j: int| 0 <= j < pre.tasks.len() && pre.tasks[j] == below;
                        crate::model::lemma_task_at(pre, j);
                        lemma_forget_sweeps(pre, mid, task@, below.id, now);
                    }
                }
            }
            i += 1;
        }
        if let Some(bookmark) = &task.bookmark {
            if self.vcs.delete_bookmark(bookmark.as_str()).is_ok() {
                let ghost mid = self@;
                self.forget_bookmark(&task.id, now);
                proof {
                    if pre.contains(task@.id) {
                        crate::model::lemma_task_of(pre, task@.id);
                    }
                    lemma_forget_sweeps(pre, mid, task@, task@.id, now);
                }
            }
        }
        proof {
            lemma_swept_keeps_but_bookmarks(pre, task@, self@, now);
        }
    }

    /// Commits the working copy and completes the task of the plan.
    fn commit_and_complete(
        &mut self,
        id: &TaskId,
        milestone: bool,
        task: &Task,
        result: Option<&str>,
        learnings: &Vec<String>,
    ) -> (r: Result<(Task, Timestamp), OsError>)
        requires
            old(self)@.wf(),
            old(self)@.contains(id@),
            task@.id == id@,
        ensures
            final(self)@.wf(),
            old(self)@.same_shape(final(self)@),
            r is Err ==> final(self)@ == old(self)@,
            r matches Ok(done) ==> done.0@.id == id@ && done.0@.completed && final(self)@.task(
                id@,
            ).completed && forall|k: int|
                0 <= k < learnings@.len() ==> final(self)@.has_note(
                    id@,
                    Some(id@),
                    #[trigger] strs_view(learnings@)[k],
                ),
            r is Ok && old(self)@.task(id@).parent_id is Some ==> forall|k: int|
                0 <= k < learnings@.len() ==> final(self)@.has_note(
                    old(self)@.task(id@).parent_id->0,
                    Some(id@),
                    #[trigger] strs_view(learnings@)[k],
                ),
            r matches Ok(done) ==> {
                &&& old(self)@.holds_completion(id@, strs_view(learnings@), done.0, final(self)@)
                &&& old(self)@.completes_only(final(self)@, seq![id@])
                &&& exists|head: Option<Seq<char>>|
                    done.0@ == old(self)@.task(id@).finished(opt_text(result), head, done.1)
            },
            r matches Ok(done) ==> old(self)@.written(
                id@,
                opt_text(result),
                strs_view(learnings@),
                done.1,
                final(self)@,
                Ok::<Task, OsError>(done.0),
            ),
            r matches Err(e) ==> old(self)@.refused_early(
                id@,
                opt_text(result),
                strs_view(learnings@),
                e,
            ),
            exists|
                committed: Result<CommitResult, VcsError>,
                head: Option<Seq<char>>,
                ids: Seq<Seq<char>>,
                now: Timestamp,
            |
                {
                    &&& old(self)@.after_commit(
                        id@,
                        opt_text(result),
                        strs_view(learnings@),
                        committed,
                        head,
                        ids,
                        now,
                        final(self)@,
                        without_time(r),
                    )
                    &&& r matches Ok(done) ==> done.1 == now
                },
    {
        let text = Self::commit_message_for(milestone, task.description.as_str(), result);
        let committed = self.vcs.commit(text.as_str());
        let ghost answered = committed;
        let head = match self.vcs.current_commit_id() {
            Ok(h) => Some(h),
            Err(_) => None,
        };
        let head_text = match &head {
            Some(h) => Some(h.as_str()),
            None => None,
        };
        let ids = self.task_service.learning_ids_for(id, learnings.len());
        let now = Timestamp::now();
        let ghost pre = self@;
        let r = self.complete_after_commit(id, result, learnings, committed, head_text, &ids, now);
        proof {
            if commit_accepted(committed) {
                lemma_complete_keeps_shape(
                    pre,
                    id@,
                    opt_text(result),
                    strs_view(learnings@),
                    opt_text(head_text),
                    lids_view(ids@),
                    now,
                    self@,
                    r,
                );
            } else {
                lemma_shape_itself(pre);
            }
            assert(strs_view(learnings@).len() == learnings@.len());
        }
        proof {
            if commit_accepted(answered) {
                assert(TaskService::drawn_for(pre, id@, learnings@.len(), lids_view(ids@)));
                assert(pre.written(id@, opt_text(result), strs_view(learnings@), now, self@, r));
            } else {
                assert(r matches Err(e) && backend_failed(e)) by {
                    assert(r == Err::<Task, OsError>(crate::error::from_vcs(answered->Err_0)));
                }
            }
        }
        let out = match r {
            Ok(t) => Ok((t, now)),
            Err(e) => Err(e),
        };
        assert(without_time(out) == r);
        assert(out matches Ok(done) ==> done.0@ == pre.task(id@).finished(
            opt_text(result),
            opt_text(head_text),
            done.1,
        ));
        assert(pre.after_commit(
            id@,
            opt_text(result),
            strs_view(learnings@),
            answered,
            opt_text(head_text),
            lids_view(ids@),
            now,
            self@,
            without_time(out),
        ) && (out matches Ok(done) ==> done.1 == now));
        out
    }

    /// Completes a milestone: the working copy is committed with a
    /// `Milestone:` message, the store records the completion, and the
    /// bookmarks of all tasks below the milestone are cleaned up. A task
    /// that is no milestone is committed and completed without cleanup.
    /// No ancestor is completed here.
    ///
    /// An archived or cancelled task is refused; a completed task is
    /// handed back as it is. Where the commit fails with anything but
    /// `NothingToCommit`, the store is left as it was.
    pub fn complete_milestone_with_learnings(
        &mut self,
        id: &TaskId,
        result: Option<&str>,
        learnings: &Vec<String>,
    ) -> (r: Result<Task, OsError>)
        requires
            old(self)@.wf(),
        ensures
            final(self)@.wf(),
            old(self)@.completed(
                id@,
                opt_text(result),
                strs_view(learnings@),
                false,
                final(self)@,
                r,
            ),
    {
        let plan = self.plan_complete(id);
        let ghost planned = plan;
        let ghost pre = self@;
        let r = match plan {
            Err(e) => Err(e),
            Ok(CompletePlan::Done(task)) => Ok(task),
            Ok(CompletePlan::Commit { milestone, task }) => {
                match self.commit_and_complete(id, milestone, &task, result, learnings) {
                    Err(e) => Err(e),
                    Ok((done, now)) => {
                        let ghost before = self@;
                        if milestone {
                            self.cleanup_after_milestone(&task, now);
                        }
                        proof {
                            lemma_after_cleanup(
                                pre,
                                before,
                                self@,
                                id@,
                                strs_view(learnings@),
                                done,
                            );
                            assert(pre.ancestors(id@).take(0).push(id@) =~= seq![id@]);
                            assert(pre.walked(id@, false, self@, 0));
                            assert(pre.after_completion(id@, false, before, now, self@));
                            assert(pre.completion_done(
                                id@,
                                opt_text(result),
                                strs_view(learnings@),
                                false,
                                done,
                                self@,
                            ));
                        }
                        Ok(done)
                    },
                }
            },
        };
        assert(pre.complete_planned(id@, planned) && pre.complete_done(
            id@,
            opt_text(result),
            strs_view(learnings@),
            false,
            planned,
            self@,
            r,
        ));
        r
    }

    /// Completes a milestone without learnings.
    pub fn complete_milestone(&mut self, id: &TaskId, result: Option<&str>) -> (r: Result<
        Task,
        OsError,
    >)
        requires
            old(self)@.wf(),
        ensures
            final(self)@.wf(),
            old(self)@.completed(id@, opt_text(result), Seq::empty(), false, final(self)@, r),
    {
        let none: Vec<String> = Vec::new();
        assert(strs_view(none@) =~= Seq::empty());
        self.complete_milestone_with_learnings(id, result, &none)
    }

    /// One step of the walk up. A parent that is cancelled or archived, has
    /// a pending child or an unsatisfied blocker, its own or of an
    /// ancestor, is left as it is, and the walk ends: the answer is
    /// `false`. A parent that is completed already is passed over. Any
    /// other parent is completed: a milestone with a commit of its own and
    /// the cleanup of what lies below it, any other task in the store with
    /// the current commit of the backend, where it has one. The
    /// `completed` flag of every other task stays as it is.
    ///
    /// Where the step fails, with a failure of the backend or of the
    /// store, nothing has changed. A parent that is no milestone and holds
    /// no learning is completed without fail.
    pub fn bubble_step(&mut self, parent: &TaskId) -> (r: Result<bool, OsError>)
        requires
            old(self)@.wf(),
        ensures
            final(self)@.wf(),
            old(self)@.same_shape(final(self)@),
            !old(self)@.bubbles_to(parent@) ==> r == Ok::<bool, OsError>(false) && final(self)@
                == old(self)@,
            old(self)@.bubbles_to(parent@) ==> r != Ok::<bool, OsError>(false),
            r == Ok::<bool, OsError>(true) ==> {
                &&& old(self)@.stepped(parent@, final(self)@)
                &&& final(self)@.task(parent@).completed
                &&& old(self)@.completes_only(final(self)@, seq![parent@])
            },
            r matches Err(e) ==> final(self)@ == old(self)@ && step_failed(e),
            old(self)@.bubbles_to(parent@) && (old(self)@.task(parent@).completed || (old(
                self,
            )@.depth(parent@) > 0 && old(self)@.learnings_of(parent@).len() == 0)) ==> r
                == Ok::<bool, OsError>(true),
    {
        if !self.bubbles_to(parent) {
            proof {
                lemma_shape_itself(self@);
            }
            return Ok(false);
        }
        let ghost pre = self@;
        if self.task_service.store.is_task_completed(parent) {
            proof {
                lemma_shape_itself(pre);
            }
            return Ok(true);
        }
        if self.task_service.store.get_task_depth(parent) == 0 {
            let done = self.complete_milestone(parent, None);
            proof {
                let plan = choose|plan: Result<CompletePlan, OsError>|
                    pre.complete_planned(parent@, plan) && pre.complete_done(
                        parent@,
                        None,
                        Seq::empty(),
                        false,
                        plan,
                        self@,
                        done,
                    );
                if done is Ok {
                    let k = choose|k: int| pre.walked(parent@, false, self@, k);
                    assert(pre.ancestors(parent@).take(0).push(parent@) =~= seq![parent@]);
                    lemma_done_is_step(pre, parent@, done->Ok_0, self@);
                } else {
                    lemma_refusal_is_failure(pre, parent@, done->Err_0);
                }
            }
            match done {
                Ok(_) => Ok(true),
                Err(e) => Err(e),
            }
        } else {
            let head = match self.vcs.current_commit_id() {
                Ok(h) => Some(h),
                Err(_) => None,
            };
            let head_text = match &head {
                Some(h) => Some(h.as_str()),
                None => None,
            };
            let none: Vec<String> = Vec::new();
            assert(strs_view(none@) =~= Seq::empty());
            let r = self.task_service.complete_with_learnings(parent, None, &none, head_text);
            proof {
                let (ids, now) = choose|ids: Seq<Seq<char>>, now: Timestamp|
                    TaskService::drawn_for(pre, parent@, 0, ids) && TaskService::complete_post(
                        pre,
                        parent@,
                        None,
                        Seq::empty(),
                        opt_text(head_text),
                        ids,
                        now,
                        self@,
                        r,
                    );
                lemma_complete_keeps_shape(
                    pre,
                    parent@,
                    None,
                    Seq::empty(),
                    opt_text(head_text),
                    ids,
                    now,
                    self@,
                    r,
                );
                if r is Ok {
                    assert(pre.written(parent@, None, Seq::empty(), now, self@, r));
                    assert(pre.after_write(parent@, self@, now, self@));
                    assert(pre.stepped(parent@, self@));
                } else {
                    assert(r->Err_0 is Database);
                }
            }
            match r {
                Ok(_) => Ok(true),
                Err(e) => Err(e),
            }
        }
    }

    /// Completes the ancestors of a task that was completed, nearest
    /// first, as far as `bubble_step` completes them.
    fn bubble_up_completion(&mut self, completed_id: &TaskId) -> (r: Result<(), OsError>)
        requires
            old(self)@.wf(),
        ensures
            final(self)@.wf(),
            old(self)@.same_shape(final(self)@),
            old(self)@.bubbled_up(completed_id@, final(self)@, r),
    {
        let above = self.task_service.store.ancestor_ids(completed_id);
        let ghost pre = self@;
        let ghost chain = pre.ancestors(completed_id@);
        let mut k: usize = 0;
        proof {
            lemma_shape_itself(pre);
            if chain.len() > 0 {
                crate::model::lemma_ancestors_stored(pre, completed_id@);
            }
        }
        while k < above.len()
            invariant
                k <= above@.len(),
                self@.wf(),
                pre.wf(),
                pre == old(self)@,
                pre.same_shape(self@),
                chain == pre.ancestors(completed_id@),
                ids_view(above@) == chain,
                forall|j: int| 0 <= j < chain.len() ==> pre.contains(#[trigger] chain[j]),
                forall|j: int| 0 <= j < k ==> auto_completed(pre, self@, #[trigger] chain[j]),
                pre.completes_only(self@, chain.take(k as int)),
                pre.walked_to(chain, k as nat, self@),
                k == 0 ==> self@ == pre,
                k > 0 ==> pre.bubbles_to(chain[0]),
            decreases above@.len() - k,
        {
            let ghost before = self@;
            assert(above@[k as int]@ == chain[k as int]);
            let step = self.bubble_step(&above[k]);
            proof {
                lemma_shape_chain(pre, before, self@);
                assert forall|j: int| 0 <= j < k implies self@.task(#[trigger] chain[j]).completed by {
                    crate::model::lemma_same_forest(pre, before, chain[j]);
                    lemma_shape_flags(before, self@, chain[j]);
                }
            }
            match step {
                Err(e) => {
                    let r = Err(e);
                    assert(pre.bubbled_up(completed_id@, self@, r)) by {
                        assert(bubble_stopped(pre, completed_id@, self@, r, k as int));
                    }
                    return r;
                },
                Ok(false) => {
                    let r = Ok(());
                    assert(pre.bubbled_up(completed_id@, self@, r)) by {
                        assert(bubble_stopped(pre, completed_id@, self@, r, k as int));
                    }
                    return r;
                },
                Ok(true) => {
                    proof {
                        lemma_walk_goes_on(pre, before, self@, chain, k as int);
                        lemma_walk_step(pre, chain, k as nat, before, self@);
                    }
                },
            }
            k += 1;
        }
        let r = Ok(());
        assert(pre.bubbled_up(completed_id@, self@, r)) by {
            assert(bubble_stopped(pre, completed_id@, self@, r, k as int));
        }
        r
    }

    /// Completes the task `id`: the working copy is committed, the store
    /// records the completion with the learnings, the bookmark of the
    /// task is cleaned up, and the ancestors that are open for work and
    /// have nothing left to wait for are completed in turn, nearest first,
    /// up to the first that is not. A milestone is completed as
    /// `complete_milestone_with_learnings` says.
    ///
    /// An archived or cancelled task is refused; a completed task is
    /// handed back as it is. Where the commit fails with anything but
    /// `NothingToCommit`, the store is left as it was.
    pub fn complete_with_learnings(
        &mut self,
        id: &TaskId,
        result: Option<&str>,
        learnings: &Vec<String>,
    ) -> (r: Result<Task, OsError>)
        requires
            old(self)@.wf(),
        ensures
            final(self)@.wf(),
            old(self)@.completed(
                id@,
                opt_text(result),
                strs_view(learnings@),
                true,
                final(self)@,
                r,
            ),
    {
        let plan = self.plan_complete(id);
        let ghost planned = plan;
        let ghost pre = self@;
        let r = match plan {
            Err(e) => Err(e),
            Ok(CompletePlan::Done(task)) => Ok(task),
            Ok(CompletePlan::Commit { milestone, task }) => {
                if milestone {
                    let r = self.complete_milestone_with_learnings(id, result, learnings);
                    proof {
                        lemma_milestone_walks_nowhere(
                            pre,
                            id@,
                            opt_text(result),
                            strs_view(learnings@),
                            self@,
                            r,
                        );
                    }
                    return r;
                }
                match self.commit_and_complete(id, false, &task, result, learnings) {
                    Err(e) => Err(e),
                    Ok((done, now)) => {
                        let ghost s1 = self@;
                        self.cleanup_after_task(&task, now);
                        let ghost s2 = self@;
                        let bubbled = self.bubble_up_completion(id);
                        proof {
                            lemma_after_cleanup(pre, s1, s2, id@, strs_view(learnings@), done);
                            lemma_shape_chain(pre, s2, self@);
                            lemma_completion_carries(
                                pre,
                                s2,
                                self@,
                                id@,
                                strs_view(learnings@),
                                done,
                            );
                            let k = choose|k: int| bubble_stopped(s2, id@, self@, bubbled, k);
                            if bubbled is Ok {
                                lemma_walk_from(pre, s2, self@, id@, k);
                                assert(pre.walked(id@, true, self@, k));
                                crate::model::lemma_same_forest_ancestors(pre, s2, id@);
                                assert(s2.walk_done(pre.ancestors(id@), self@)) by {
                                    assert(s2.walked_to(pre.ancestors(id@), k as nat, self@));
                                }
                                assert(pre.cleaned(id@, s1, now, s2));
                                assert(pre.after_completion(id@, true, s1, now, self@));
                                assert(pre.completion_done(
                                    id@,
                                    opt_text(result),
                                    strs_view(learnings@),
                                    true,
                                    done,
                                    self@,
                                ));
                            }
                        }
                        match bubbled {
                            Err(e) => Err(e),
                            Ok(()) => Ok(done),
                        }
                    },
                }
            },
        };
        assert(pre.complete_planned(id@, planned) && pre.complete_done(
            id@,
            opt_text(result),
            strs_view(learnings@),
            true,
            planned,
            self@,
            r,
        ));
        r
    }

    /// Completes the task `id` without learnings.
    pub fn complete(&mut self, id: &TaskId, result: Option<&str>) -> (r: Result<Task, OsError>)
        requires
            old(self)@.wf(),
        ensures
            final(self)@.wf(),
            old(self)@.completed(id@, opt_text(result), Seq::empty(), true, final(self)@, r),
    {
        let none: Vec<String> = Vec::new();
        assert(strs_view(none@) =~= Seq::empty());
        self.complete_with_learnings(id, result, &none)
    }
}

/// Forgetting the bookmark of a task that the cleanup may sweep goes on
/// with the cleanup.
pub proof fn lemma_forget_sweeps(
    pre: StoreView,
    mid: StoreView,
    task: TaskView,
    id: Seq<char>,
    now: Timestamp,
)
    requires
        pre.ids_unique(),
        pre.bookmarks_swept(task, mid, now),
        pre.contains(id) ==> pre.sweeps(task, pre.task(id)),
    ensures
        pre.bookmarks_swept(task, mid.bookmark_forgotten(id, now), now),
{
    if mid.contains(id) {
        crate::model::lemma_task_of(mid, id);
        let j = mid.index_of(id);
        let post = mid.bookmark_forgotten(id, now);
        assert(mid.tasks[j].id == pre.tasks[j].id);
        crate::model::lemma_task_at(pre, j);
        assert(post.tasks =~= mid.tasks.update(j, mid.tasks[j].with_bookmark(None, now)));
        assert forall|i: int| 0 <= i < pre.tasks.len() implies #[trigger] post.tasks[i]
            == pre.tasks[i] || (pre.sweeps(task, pre.tasks[i]) && post.tasks[i]
            == pre.tasks[i].with_bookmark(None, now)) by {
            if i != j {
                assert(post.tasks[i] == mid.tasks[i]);
            }
        }
    }
}

/// What a cleanup leaves differs from the store in bookmarks alone.
pub proof fn lemma_swept_keeps_but_bookmarks(
    a: StoreView,
    task: TaskView,
    b: StoreView,
    now: Timestamp,
)
    requires
        a.bookmarks_swept(task, b, now),
    ensures
        a.same_but_bookmarks(b),
{
}

/// Shapes that follow each other stay the same.
pub proof fn lemma_shape_chain(a: StoreView, b: StoreView, c: StoreView)
    requires
        a.same_shape(b),
        b.same_shape(c),
    ensures
        a.same_shape(c),
{
    assert forall|i: int| 0 <= i < a.tasks.len() implies (#[trigger] a.tasks[i]).id == (
    #[trigger] c.tasks[i]).id && a.tasks[i].parent_id == c.tasks[i].parent_id by {
        assert(a.tasks[i].id == b.tasks[i].id);
        assert(b.tasks[i].id == c.tasks[i].id);
    }
    assert forall|i: int| 0 <= i < a.tasks.len() implies {
        &&& (#[trigger] c.tasks[i]).cancelled == a.tasks[i].cancelled
        &&& c.tasks[i].archived == a.tasks[i].archived
        &&& a.tasks[i].completed ==> c.tasks[i].completed
    } by {
        assert(b.tasks[i].cancelled == a.tasks[i].cancelled);
        assert(c.tasks[i].cancelled == b.tasks[i].cancelled);
    }
    assert(a.learnings.is_prefix_of(c.learnings)) by {
        assert forall|i: int| 0 <= i < a.learnings.len() implies a.learnings[i]
            == c.learnings[i] by {
            assert(a.learnings[i] == b.learnings[i]);
            assert(b.learnings[i] == c.learnings[i]);
        }
        assert(a.learnings =~= c.learnings.subrange(0, a.learnings.len() as int));
    }
}

/// Removing bookmarks keeps the shape.
pub proof fn lemma_bookmarks_keep_shape(a: StoreView, b: StoreView, c: StoreView)
    requires
        a.same_shape(b),
        b.same_but_bookmarks(c),
    ensures
        a.same_shape(c),
{
    assert forall|i: int| 0 <= i < a.tasks.len() implies (#[trigger] a.tasks[i]).id == (
    #[trigger] c.tasks[i]).id && a.tasks[i].parent_id == c.tasks[i].parent_id by {
        assert(a.tasks[i].id == b.tasks[i].id);
        assert(c.tasks[i].id == b.tasks[i].id);
    }
    assert forall|i: int| 0 <= i < a.tasks.len() implies {
        &&& (#[trigger] c.tasks[i]).cancelled == a.tasks[i].cancelled
        &&& c.tasks[i].archived == a.tasks[i].archived
        &&& a.tasks[i].completed ==> c.tasks[i].completed
    } by {
        assert(b.tasks[i].cancelled == a.tasks[i].cancelled);
        assert(c.tasks[i].cancelled == b.tasks[i].cancelled);
    }
    assert(a.learnings.is_prefix_of(c.learnings)) by {
        assert forall|i: int| 0 <= i < a.learnings.len() implies a.learnings[i]
            == c.learnings[i] by {
            assert(a.learnings[i] == b.learnings[i]);
            assert(b.learnings[i] == c.learnings[i]);
        }
        assert(a.learnings =~= c.learnings.subrange(0, a.learnings.len() as int));
    }
}

/// A store has its own shape.
pub proof fn lemma_shape_itself(a: StoreView)
    ensures
        a.same_shape(a),
{
    assert(a.learnings =~= a.learnings.subrange(0, a.learnings.len() as int));
}

/// In stores of the same shape the learnings that a task holds stay.
pub proof fn lemma_shape_keeps_notes(
    a: StoreView,
    b: StoreView,
    task: Seq<char>,
    origin: Seq<char>,
    contents: Seq<Seq<char>>,
)
    requires
        a.same_shape(b),
        forall|k: int|
            0 <= k < contents.len() ==> a.has_note(task, Some(origin), #[trigger] contents[k]),
    ensures
        forall|k: int|
            0 <= k < contents.len() ==> b.has_note(task, Some(origin), #[trigger] contents[k]),
{
    assert forall|k: int| 0 <= k < contents.len() implies b.has_note(
        task,
        Some(origin),
        #[trigger] contents[k],
    ) by {
        crate::model::lemma_prefix_keeps_notes(a, b, task, Some(origin), contents[k]);
    }
}

/// In stores of the same shape a task that is completed stays completed,
/// and its other flags stay as they are.
pub proof fn lemma_shape_flags(a: StoreView, b: StoreView, id: Seq<char>)
    requires
        a.wf(),
        a.same_shape(b),
        a.contains(id),
    ensures
        b.contains(id),
        b.task(id).cancelled == a.task(id).cancelled,
        b.task(id).archived == a.task(id).archived,
        a.task(id).completed ==> b.task(id).completed,
{
    crate::model::lemma_same_forest(a, b, id);
    crate::model::lemma_task_of(a, id);
    let i = a.index_of(id);
    crate::model::lemma_task_at(b, i);
    assert(b.tasks[i].cancelled == a.tasks[i].cancelled);
}

/// Completing a task gives a store of the same shape.
pub proof fn lemma_complete_keeps_shape(
    pre: StoreView,
    id: Seq<char>,
    result: Option<Seq<char>>,
    learnings: Seq<Seq<char>>,
    commit_sha: Option<Seq<char>>,
    ids: Seq<Seq<char>>,
    now: Timestamp,
    post: StoreView,
    r: Result<Task, OsError>,
)
    requires
        pre.wf(),
        post.wf(),
        TaskService::complete_post(pre, id, result, learnings, commit_sha, ids, now, post, r),
    ensures
        pre.same_shape(post),
        r is Err ==> post == pre,
        r is Ok ==> post.task(id).completed,
        r is Ok ==> forall|k: int|
            0 <= k < learnings.len() ==> post.has_note(id, Some(id), #[trigger] learnings[k]),
        r is Ok && pre.task(id).parent_id is Some ==> forall|k: int|
            0 <= k < learnings.len() ==> post.has_note(
                pre.task(id).parent_id->0,
                Some(id),
                #[trigger] learnings[k],
            ),
        r matches Ok(t) ==> {
            &&& pre.holds_completion(id, learnings, t, post)
            &&& t@ == pre.task(id).finished(result, commit_sha, now)
            &&& pre.completes_only(post, seq![id])
        },
{
    crate::task_service::lemma_complete_keeps_forest(
        pre,
        id,
        result,
        learnings,
        commit_sha,
        ids,
        now,
        post,
        r,
    );
    if r is Err {
        lemma_shape_itself(pre);
    }
    if r is Ok {
        crate::model::lemma_task_of(pre, id);
        assert(seq![id].contains(id)) by {
            assert(seq![id][0] == id);
        }
    }
    if r is Ok {
        assert forall|i: int| 0 <= i < pre.tasks.len() implies {
            &&& (#[trigger] post.tasks[i]).cancelled == pre.tasks[i].cancelled
            &&& post.tasks[i].archived == pre.tasks[i].archived
            &&& pre.tasks[i].completed ==> post.tasks[i].completed
        } by {
            let x = pre.tasks[i].id;
            crate::model::lemma_task_at(pre, i);
            crate::model::lemma_same_forest(pre, post, x);
            crate::model::lemma_task_at(post, i);
            if x != id {
                assert(post.task(x) == pre.task(x));
            } else {
                assert(post.task(id) == pre.task(id).finished(result, commit_sha, now)) by {
                    assert(r matches Ok(t) && post.describes(t));
                }
            }
        }
    }
}

/// In a store of the same shape a task without pending children has none,
/// and a task that is not effectively blocked is not.
pub proof fn lemma_shape_keeps_ready(a: StoreView, b: StoreView, p: Seq<char>)
    requires
        a.wf(),
        a.same_shape(b),
    ensures
        !a.has_pending_children(p) ==> !b.has_pending_children(p),
        !a.effectively_blocked(p) ==> !b.effectively_blocked(p),
{
    if b.has_pending_children(p) {
        let i = choose|i: int|
            0 <= i < b.tasks.len() && (#[trigger] b.tasks[i]).parent_id == Some(p)
                && !b.tasks[i].is_finished_for_hierarchy();
        assert(a.tasks[i].parent_id == Some(p));
        assert(b.tasks[i].cancelled == a.tasks[i].cancelled);
        assert(!a.tasks[i].is_finished_for_hierarchy());
    }
    assert forall|x: Seq<char>| a.satisfies(x) implies #[trigger] b.satisfies(x) by {
        lemma_shape_flags(a, b, x);
    }
    assert forall|y: Seq<char>| a.own_unblocked(y) implies #[trigger] b.own_unblocked(y) by {
        assert forall|i: int|
            0 <= i < b.blockers.len() && (#[trigger] b.blockers[i]).task_id == y implies b.satisfies(
            b.blockers[i].blocker_id,
        ) by {
            assert(a.satisfies(a.blockers[i].blocker_id));
        }
    }
    crate::model::lemma_same_forest_ancestors(a, b, p);
    if b.ancestor_blocked(p) && !a.effectively_blocked(p) {
        let k = choose|k: int|
            0 <= k < b.ancestors(p).len() && !b.own_unblocked(#[trigger] b.ancestors(p)[k]);
        assert(a.own_unblocked(a.ancestors(p)[k]));
    }
}

/// Where only bookmarks were removed, every task keeps its `completed`
/// flag.
pub proof fn lemma_bookmarks_keep_flags(a: StoreView, b: StoreView)
    requires
        a.wf(),
        a.same_but_bookmarks(b),
    ensures
        a.completes_only(b, Seq::empty()),
{
    lemma_shape_itself(a);
    lemma_bookmarks_keep_shape(a, a, b);
    assert forall|x: Seq<char>| a.contains(x) implies (#[trigger] b.task(x)).completed == a.task(
        x,
    ).completed by {
        crate::model::lemma_task_of(a, x);
        let i = a.index_of(x);
        crate::model::lemma_same_forest(a, b, x);
        crate::model::lemma_task_at(b, i);
    }
}

/// Flags that stay from one store to the next and from there to a third
/// stay from the first to the third.
pub proof fn lemma_flags_chain(
    pre: StoreView,
    a: StoreView,
    b: StoreView,
    first: Seq<Seq<char>>,
    second: Seq<Seq<char>>,
    both: Seq<Seq<char>>,
)
    requires
        pre.ids_unique(),
        pre.same_forest(a),
        pre.completes_only(a, first),
        a.completes_only(b, second),
        forall|x: Seq<char>| first.contains(x) || second.contains(x) ==> #[trigger] both.contains(x),
    ensures
        pre.completes_only(b, both),
{
    assert forall|x: Seq<char>| pre.contains(x) && !both.contains(x) implies (#[trigger] b.task(
        x,
    )).completed == pre.task(x).completed by {
        crate::model::lemma_same_forest(pre, a, x);
        assert(a.task(x).completed == pre.task(x).completed);
    }
}

/// What a completion wrote stays in a store of the same shape.
pub proof fn lemma_completion_carries(
    pre: StoreView,
    a: StoreView,
    b: StoreView,
    id: Seq<char>,
    learnings: Seq<Seq<char>>,
    t: Task,
)
    requires
        a.wf(),
        a.contains(id),
        a.same_shape(b),
        pre.holds_completion(id, learnings, t, a),
    ensures
        pre.holds_completion(id, learnings, t, b),
{
    lemma_shape_flags(a, b, id);
    lemma_shape_keeps_notes(a, b, id, id, learnings);
    if pre.task(id).parent_id is Some {
        lemma_shape_keeps_notes(a, b, pre.task(id).parent_id->0, id, learnings);
    }
    crate::model::lemma_same_forest_ancestors(a, b, id);
}

/// After a completion and the cleanup that follows it: the shape is
/// kept, what the completion wrote is still there, and the task is the
/// only one whose `completed` flag changed.
pub proof fn lemma_after_cleanup(
    pre: StoreView,
    s1: StoreView,
    s2: StoreView,
    id: Seq<char>,
    learnings: Seq<Seq<char>>,
    t: Task,
)
    requires
        pre.wf(),
        s1.wf(),
        pre.contains(id),
        pre.same_shape(s1),
        s1 == s2 || s1.same_but_bookmarks(s2),
        pre.holds_completion(id, learnings, t, s1),
        pre.completes_only(s1, seq![id]),
    ensures
        pre.same_shape(s2),
        s1.same_shape(s2),
        pre.holds_completion(id, learnings, t, s2),
        pre.completes_only(s2, seq![id]),
        s2.contains(id),
{
    crate::model::lemma_same_forest(pre, s1, id);
    lemma_shape_itself(s1);
    if s1 != s2 {
        lemma_bookmarks_keep_shape(pre, s1, s2);
        lemma_bookmarks_keep_shape(s1, s1, s2);
        lemma_bookmarks_keep_flags(s1, s2);
        lemma_flags_chain(pre, s1, s2, seq![id], Seq::empty(), seq![id]);
    }
    lemma_completion_carries(pre, s1, s2, id, learnings, t);
    crate::model::lemma_same_forest(s1, s2, id);
}

/// One more step of the walk up: where the `k`-th ancestor was completed
/// by its last child, the walk has completed the ancestors up to it.
pub proof fn lemma_walk_goes_on(
    pre: StoreView,
    before: StoreView,
    after: StoreView,
    chain: Seq<Seq<char>>,
    k: int,
)
    requires
        pre.wf(),
        before.wf(),
        pre.same_shape(before),
        before.same_shape(after),
        0 <= k < chain.len(),
        forall|j: int| 0 <= j < chain.len() ==> pre.contains(#[trigger] chain[j]),
        forall|j: int| 0 <= j < k ==> auto_completed(pre, before, #[trigger] chain[j]),
        pre.completes_only(before, chain.take(k)),
        before.bubbles_to(chain[k]),
        after.task(chain[k]).completed,
        before.completes_only(after, seq![chain[k]]),
    ensures
        forall|j: int| 0 <= j < k + 1 ==> auto_completed(pre, after, #[trigger] chain[j]),
        pre.completes_only(after, chain.take(k + 1)),
{
    assert forall|j: int| 0 <= j < k + 1 implies auto_completed(pre, after, #[trigger] chain[j]) by {
        let p = chain[j];
        crate::model::lemma_same_forest(pre, before, p);
        lemma_shape_keeps_ready(before, after, p);
        lemma_shape_flags(before, after, p);
        lemma_shape_flags(pre, before, p);
        lemma_shape_chain(pre, before, after);
        lemma_shape_flags(pre, after, p);
    }
    assert(chain.take(k + 1) =~= chain.take(k).push(chain[k]));
    assert forall|x: Seq<char>|
        chain.take(k).contains(x) || seq![chain[k]].contains(x) implies #[trigger] chain.take(
        k + 1,
    ).contains(x) by {
        if chain.take(k).contains(x) {
            let i = choose|i: int| 0 <= i < k && chain.take(k)[i] == x;
            assert(chain.take(k + 1)[i] == x);
        } else {
            assert(chain.take(k + 1)[k] == x);
        }
    }
    lemma_flags_chain(pre, before, after, chain.take(k), seq![chain[k]], chain.take(k + 1));
}

/// The walk up as seen from the store before the completion: what it
/// says of the store after the cleanup holds of the store before the task
/// was completed, with the task among the tasks that were completed.
pub proof fn lemma_walk_from(pre: StoreView, s2: StoreView, post: StoreView, id: Seq<char>, k: int)
    requires
        pre.wf(),
        s2.wf(),
        pre.contains(id),
        pre.same_shape(s2),
        pre.completes_only(s2, seq![id]),
        bubble_stopped(s2, id, post, Ok(()), k),
    ensures
        pre.walked(id, true, post, k),
{
    crate::model::lemma_same_forest_ancestors(pre, s2, id);
    crate::model::lemma_ancestors_stored(pre, id);
    let above = pre.ancestors(id);
    assert forall|j: int| 0 <= j < k implies auto_completed(pre, post, #[trigger] above[j]) by {
        assert(auto_completed(s2, post, above[j]));
        lemma_shape_flags(pre, s2, above[j]);
    }
    let these = above.take(k).push(id);
    assert forall|x: Seq<char>|
        seq![id].contains(x) || above.take(k).contains(x) implies #[trigger] these.contains(x) by {
        if above.take(k).contains(x) {
            let i = choose|i: int| 0 <= i < k && above.take(k)[i] == x;
            assert(these[i] == x);
        } else {
            assert(these[k] == x);
        }
    }
    lemma_flags_chain(pre, s2, post, seq![id], above.take(k), these);
}

/// A step of the walk up goes on from where the walk stands.
pub proof fn lemma_walk_step(
    pre: StoreView,
    chain: Seq<Seq<char>>,
    k: nat,
    before: StoreView,
    after: StoreView,
)
    requires
        k < chain.len(),
        pre.walked_to(chain, k, before),
        before.bubbles_to(chain[k as int]),
        before.stepped(chain[k as int], after),
    ensures
        pre.walked_to(chain, k + 1, after),
{
    let next = k + 1;
    assert((next - 1) as nat == k);
    assert(chain[next - 1] == chain[k as int]);
    assert(pre.walked_to(chain, next, after));
}

/// The completion of a parent without result and learnings, not followed
/// by a walk up, is a step of the walk.
pub proof fn lemma_done_is_step(pre: StoreView, p: Seq<char>, t: Task, post: StoreView)
    requires
        !pre.task(p).completed,
        pre.completion_done(p, None, Seq::empty(), false, t, post),
    ensures
        pre.stepped(p, post),
{
    let (now, s1) = choose|now: Timestamp, s1: StoreView|
        pre.written(p, None, Seq::empty(), now, s1, Ok::<Task, OsError>(t))
            && pre.after_completion(p, false, s1, now, post);
    assert(pre.after_write(p, s1, now, post));
}

/// A parent that is completed by its last child is refused by the backend
/// or for want of a fresh identifier, and by nothing else.
pub proof fn lemma_refusal_is_failure(pre: StoreView, p: Seq<char>, e: OsError)
    requires
        pre.bubbles_to(p),
        pre.refused_early(p, None, Seq::empty(), e),
    ensures
        step_failed(e),
{
    if !backend_failed(e) {
        let now = choose|now: Timestamp|
            pre.written(p, None, Seq::empty(), now, pre, Err::<Task, OsError>(e));
        let (head, ids) = choose|head: Option<Seq<char>>, ids: Seq<Seq<char>>|
            TaskService::drawn_for(pre, p, 0, ids) && TaskService::complete_post(
                pre,
                p,
                None,
                Seq::empty(),
                head,
                ids,
                now,
                pre,
                Err::<Task, OsError>(e),
            );
        assert(e is Database);
    }
}

/// A milestone has no ancestor: its completion is also what a completion
/// with the walk up leaves behind.
pub proof fn lemma_milestone_walks_nowhere(
    pre: StoreView,
    id: Seq<char>,
    result: Option<Seq<char>>,
    learnings: Seq<Seq<char>>,
    post: StoreView,
    r: Result<Task, OsError>,
)
    requires
        pre.depth(id) == 0,
        pre.completed(id, result, learnings, false, post, r),
    ensures
        pre.completed(id, result, learnings, true, post, r),
{
    let plan = choose|plan: Result<CompletePlan, OsError>|
        pre.complete_planned(id, plan) && pre.complete_done(
            id,
            result,
            learnings,
            false,
            plan,
            post,
            r,
        );
    if plan matches Ok(CompletePlan::Commit { .. }) {
        if let Ok(t) = r {
            let k = choose|k: int| pre.walked(id, false, post, k);
            assert(pre.walked(id, true, post, 0));
            let (now, s1) = choose|now: Timestamp, s1: StoreView|
                pre.written(id, result, learnings, now, s1, Ok::<Task, OsError>(t))
                    && pre.after_completion(id, false, s1, now, post);
            assert(pre.after_completion(id, true, s1, now, post));
        }
    }
    assert(pre.complete_done(id, result, learnings, true, plan, post, r));
}

} // verus!
