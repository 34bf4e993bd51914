//! What holds of the operations together: the invariants they keep and
//! the states they cannot reach.

use vstd::prelude::*;

use crate::error::OsError;
use crate::model::{max_depth, BlockerView, StoreView};
use crate::task_service::TaskService;
use crate::types::{CreateTaskInput, LearningView, Task, TaskView, Timestamp, UpdateTaskInput};
use crate::workflow::CompletePlan;

verus! {

impl StoreView {
    /// No blocker of the task is the task itself, an ancestor or a
    /// descendant of it.
    pub open spec fn blockers_unrelated(self, id: Seq<char>) -> bool {
        forall|b: Seq<char>| #[trigger]
            self.has_edge(id, b) ==> b != id && !self.is_ancestor(b, id) && !self.is_ancestor(
                id,
                b,
            )
    }

    /// Every edge of `post` is an edge of this store.
    pub open spec fn holds_edges_of(self, post: StoreView) -> bool {
        forall|a: Seq<char>, b: Seq<char>| #[trigger] post.has_edge(a, b) ==> self.has_edge(a, b)
    }
}

// ----- the lifecycle of one record -----

/// Starting a task keeps the lifecycle invariants of its record.
pub proof fn law_start_keeps_lifecycle(t: TaskView, now: Timestamp)
    requires
        t.lifecycle_ok(),
    ensures
        t.started(now).lifecycle_ok(),
{
}

/// Completing a task that is not cancelled keeps the lifecycle invariants
/// of its record, and the record is stamped.
pub proof fn law_complete_keeps_lifecycle(
    t: TaskView,
    result: Option<Seq<char>>,
    commit: Option<Seq<char>>,
    now: Timestamp,
)
    requires
        t.lifecycle_ok(),
        !t.cancelled,
    ensures
        t.finished(result, commit, now).lifecycle_ok(),
        t.finished(result, commit, now).completed_at is Some,
{
}

/// A completion that succeeds hands back a task that is completed and not
/// cancelled, stamped, with the result it was given; the task had no
/// pending child; its record keeps the lifecycle invariants; and the
/// blocker edges are as they were.
pub proof fn law_completed_keeps_invariants(
    pre: StoreView,
    id: Seq<char>,
    result: Option<Seq<char>>,
    learnings: Seq<Seq<char>>,
    commit: Option<Seq<char>>,
    ids: Seq<Seq<char>>,
    now: Timestamp,
    post: StoreView,
    r: Result<Task, OsError>,
)
    requires
        pre.wf(),
        TaskService::complete_post(pre, id, result, learnings, commit, ids, now, post, r),
        r is Ok,
    ensures
        r->Ok_0@.completed,
        !r->Ok_0@.cancelled,
        r->Ok_0@.completed_at is Some,
        r->Ok_0@.result == result,
        post.task(id) == r->Ok_0@,
        pre.task(id).lifecycle_ok() ==> post.task(id).lifecycle_ok(),
        !pre.has_pending_children(id),
        post.blockers == pre.blockers,
{
    crate::task_service::lemma_complete_keeps_forest(
        pre,
        id,
        result,
        learnings,
        commit,
        ids,
        now,
        post,
        r,
    );
}

/// Reopening a completed task gives a pending task whose record keeps the
/// lifecycle invariants.
pub proof fn law_reopen_keeps_lifecycle(t: TaskView, now: Timestamp)
    requires
        t.lifecycle_ok(),
        t.state() == crate::types::LifecycleState::Completed,
    ensures
        t.reopened(now).lifecycle_ok(),
        t.reopened(now).state() == crate::types::LifecycleState::Pending,
{
}

/// Cancelling a task that is open for work gives a cancelled task whose
/// record keeps the lifecycle invariants.
pub proof fn law_cancel_keeps_lifecycle(t: TaskView, now: Timestamp)
    requires
        t.lifecycle_ok(),
        t.is_active_for_work(),
    ensures
        t.cancelled_now(now).lifecycle_ok(),
        t.cancelled_now(now).state() == crate::types::LifecycleState::Cancelled,
        !t.cancelled_now(now).satisfies_blocker(),
{
}

/// Archiving a completed or cancelled task gives an archived task whose
/// record keeps the lifecycle invariants.
pub proof fn law_archive_keeps_lifecycle(t: TaskView, now: Timestamp)
    requires
        t.lifecycle_ok(),
        t.is_finished_for_hierarchy(),
    ensures
        t.archived_now(now).lifecycle_ok(),
        t.archived_now(now).state() == crate::types::LifecycleState::Archived,
{
}

/// A new task is pending, and its record keeps the lifecycle invariants.
pub proof fn law_created_is_pending(input: CreateTaskInput, id: Seq<char>, now: Timestamp)
    ensures
        input@.record(id, now).lifecycle_ok(),
        input@.record(id, now).state() == crate::types::LifecycleState::Pending,
{
}

/// Changing the fields of a task keeps its lifecycle state and the
/// lifecycle invariants of its record.
pub proof fn law_update_keeps_lifecycle(t: TaskView, input: UpdateTaskInput, now: Timestamp)
    requires
        t.lifecycle_ok(),
    ensures
        t.patched(input@, now).lifecycle_ok(),
        t.patched(input@, now).state() == t.state(),
{
}

// ----- children and parents -----

/// A task is created only with a valid priority, and under a parent only
/// where the parent is open for work and no subtask; the new task is then
/// one level below its parent.
pub proof fn law_create_respects_parent(
    pre: StoreView,
    input: CreateTaskInput,
    id: Seq<char>,
    now: Timestamp,
    post: StoreView,
    r: Result<Task, OsError>,
)
    requires
        pre.wf(),
        TaskService::create_post(pre, input, id, now, post, r),
        r is Ok,
    ensures
        input.priority is Some ==> 0 <= input.priority->0 <= 2,
        input@.parent_id is Some ==> pre.contains(input@.parent_id->0) && pre.task(
            input@.parent_id->0,
        ).is_active_for_work() && pre.depth(input@.parent_id->0) < max_depth(),
        post.depth(id) <= max_depth(),
        post.depth(id) == if input@.parent_id is Some {
            pre.depth(input@.parent_id->0) + 1
        } else {
            0
        },
{
    crate::task_service::lemma_first_refused(pre, input@.parent_id, input@.blocked_by);
    assert forall|k: int| 0 <= k < input@.blocked_by.len() implies pre.contains(
        #[trigger] input@.blocked_by[k],
    ) by {
        assert(!pre.refuses_blocker(input@.parent_id, input@.blocked_by[k]));
    }
    crate::model::lemma_inserted_wf(pre, input@.record(id, now), input@.blocked_by);
}

/// A task is moved under a new parent only where the parent is open for
/// work, and every task of the store is then no deeper than a subtask.
pub proof fn law_update_respects_parent(
    pre: StoreView,
    id: Seq<char>,
    input: UpdateTaskInput,
    now: Timestamp,
    post: StoreView,
    r: Result<Task, OsError>,
)
    requires
        pre.wf(),
        post.wf(),
        TaskService::update_post(pre, id, input, now, post, r),
        r is Ok,
        input@.parent_id is Some,
    ensures
        pre.task(input@.parent_id->0).is_active_for_work(),
        !pre.closes_parent_cycle(id, input@.parent_id->0),
        post.parent_of(id) == input@.parent_id,
        post.depth_bounded(),
{
    crate::model::lemma_task_of(pre, id);
    crate::model::lemma_replaced(
        pre,
        pre.index_of(id),
        pre.task(id).patched(input@, now),
        id,
    );
}

/// A milestone is archived only where it is completed or cancelled and
/// every task below it is completed, cancelled or archived; every task
/// below it is archived with it and stamped, but for those that were
/// archived before, which stay as they are.
pub proof fn law_archive_cascades(
    pre: StoreView,
    id: Seq<char>,
    now: Timestamp,
    post: StoreView,
    r: Result<Task, OsError>,
    below: Seq<char>,
)
    requires
        pre.wf(),
        TaskService::archive_post(pre, id, now, post, r),
        r is Ok,
        pre.depth(id) == 0,
        pre.contains(below),
        pre.is_ancestor(id, below),
    ensures
        !pre.task(below).is_active_for_work(),
        post.contains(below),
        post.task(below).archived,
        post.task(id).archived,
        // the milestone was completed or cancelled, and what is handed back is stamped
        pre.task(id).completed || pre.task(id).cancelled,
        r->Ok_0@.archived && r->Ok_0@.archived_at == Some(now),
        r->Ok_0@.completed || r->Ok_0@.cancelled,
        // a task below it that was archived before is left as it is; any
        // other is archived and stamped now
        post.task(below) == if pre.task(below).archived {
            pre.task(below)
        } else {
            pre.task(below).archived_now(now)
        },
        pre.task(below).lifecycle_ok() ==> post.task(below).lifecycle_ok()
            && post.task(below).archived_at is Some,
{
    assert(pre.descendants_finished(id));
    crate::model::lemma_task_of(pre, below);
    crate::model::lemma_task_of(pre, id);
    let i = pre.index_of(below);
    let j = pre.index_of(id);
    assert(pre.tasks[i].id == below);
    assert(post.tasks[i].id == below);
    assert(post.tasks[j].id == id);
    assert(post.ids_unique()) by {
        assert forall|a: int, b: int| 0 <= a < b < post.tasks.len() implies (
        #[trigger] post.tasks[a]).id != (#[trigger] post.tasks[b]).id by {
            assert(pre.tasks[a].id != pre.tasks[b].id);
        }
    }
    crate::model::lemma_task_at(post, i);
    crate::model::lemma_task_at(post, j);
}

// ----- deletion -----

/// A deleted task leaves nothing behind: it is not stored, no blocker
/// edge mentions it, no task has it as its parent, and no learning is
/// attached to it.
pub proof fn law_delete_leaves_no_trace(s: StoreView, id: Seq<char>)
    requires
        s.wf(),
    ensures
        !s.without_subtree(id).contains(id),
        forall|i: int|
            0 <= i < s.without_subtree(id).blockers.len() ==> (#[trigger] s.without_subtree(
                id,
            ).blockers[i]).task_id != id && s.without_subtree(id).blockers[i].blocker_id != id,
        forall|i: int|
            0 <= i < s.without_subtree(id).tasks.len() ==> (#[trigger] s.without_subtree(
                id,
            ).tasks[i]).parent_id != Some(id),
        forall|i: int|
            0 <= i < s.without_subtree(id).learnings.len() ==> (#[trigger] s.without_subtree(
                id,
            ).learnings[i]).task_id != id,
{
    let n = s.without_subtree(id);
    crate::model::lemma_subtree_tasks(s, id);
    let tp = |t: TaskView| s.outside_subtree(id, t.id);
    let bp = |e: BlockerView|
        s.outside_subtree(id, e.task_id) && s.outside_subtree(id, e.blocker_id);
    let lp = |l: LearningView| s.outside_subtree(id, l.task_id);
    crate::model::lemma_filter_members(s.tasks, tp);
    crate::model::lemma_filter_members(s.blockers, bp);
    crate::model::lemma_filter_members(s.learnings, lp);
    assert forall|i: int| 0 <= i < n.blockers.len() implies (#[trigger] n.blockers[i]).task_id != id
        && n.blockers[i].blocker_id != id by {
        assert(bp(n.blockers[i]));
    }
    assert forall|i: int| 0 <= i < n.learnings.len() implies (#[trigger] n.learnings[i]).task_id
        != id by {
        assert(lp(n.learnings[i]));
    }
    assert forall|i: int| 0 <= i < n.tasks.len() implies (#[trigger] n.tasks[i]).parent_id != Some(
        id,
    ) by {
        let t = n.tasks[i];
        assert(tp(t));
        if t.parent_id == Some(id) {
            assert(s.tasks.contains(t));
            let k = choose|k: int| 0 <= k < s.tasks.len() && s.tasks[k] == t;
            crate::model::lemma_task_at(s, k);
            assert(s.parent_of(t.id) == Some(id));
            assert(s.ancestors(t.id)[0] == id);
        }
    }
}

// ----- blocker edges -----

/// What is left of the edges after some were dropped are edges that were
/// there.
pub proof fn lemma_filtered_edges(pre: StoreView, post: StoreView, p: spec_fn(BlockerView) -> bool)
    requires
        post.blockers == pre.blockers.filter(p),
    ensures
        pre.holds_edges_of(post),
{
    crate::model::lemma_filter_members(pre.blockers, p);
    assert forall|a: Seq<char>, b: Seq<char>| #[trigger] post.has_edge(a, b) implies pre.has_edge(
        a,
        b,
    ) by {
        let i = choose|i: int|
            0 <= i < post.blockers.len() && (#[trigger] post.blockers[i]).task_id == a
                && post.blockers[i].blocker_id == b;
        assert(pre.blockers.contains(post.blockers[i]));
        let k = choose|k: int| 0 <= k < pre.blockers.len() && pre.blockers[k] == post.blockers[i];
        assert(pre.blockers[k].task_id == a);
    }
}

/// A blocker is accepted only where it is not the task, not an ancestor
/// and not a descendant of it, and where the new edge closes no cycle: a
/// store without cycles of blocker edges has none afterwards, and a task
/// whose blockers were all unrelated to it has only such blockers
/// afterwards.
pub proof fn law_add_blocker_keeps_invariants(
    pre: StoreView,
    task: Seq<char>,
    blocker: Seq<char>,
    post: StoreView,
    r: Result<Task, OsError>,
)
    requires
        pre.wf(),
        TaskService::add_blocker_post(pre, task, blocker, post, r),
        r is Ok,
    ensures
        blocker != task,
        !pre.is_ancestor(blocker, task),
        !pre.is_ancestor(task, blocker),
        !post.is_ancestor(blocker, task),
        !post.is_ancestor(task, blocker),
        post.has_edge(task, blocker),
        pre.blockers_acyclic() ==> post.blockers_acyclic(),
        forall|x: Seq<char>| pre.blockers_unrelated(x) ==> #[trigger] post.blockers_unrelated(x),
{
    crate::model::lemma_with_edge_edges(pre, task, blocker);
    crate::model::lemma_same_tasks(pre, post, task);
    crate::model::lemma_same_tasks(pre, post, blocker);
    if pre.blockers_acyclic() {
        crate::graph::law_new_edge_stays_acyclic(pre, task, blocker);
    }
    assert forall|x: Seq<char>| pre.blockers_unrelated(x) implies #[trigger] post.blockers_unrelated(
        x,
    ) by {
        assert forall|b: Seq<char>| #[trigger] post.has_edge(x, b) implies b != x
            && !post.is_ancestor(b, x) && !post.is_ancestor(x, b) by {
            crate::model::lemma_same_tasks(pre, post, x);
            crate::model::lemma_same_tasks(pre, post, b);
            if !pre.has_edge(x, b) {
                let i = choose|i: int|
                    0 <= i < post.blockers.len() && (#[trigger] post.blockers[i]).task_id == x
                        && post.blockers[i].blocker_id == b;
                assert(i == pre.blockers.len());
            }
        }
    }
}

/// A new task waits for no task that is its parent or an ancestor of it,
/// so that its blockers are unrelated to it; the tasks that were there
/// keep blockers that are unrelated to them; and a store without cycles of
/// blocker edges has none after the task was created.
pub proof fn law_create_keeps_invariants(
    pre: StoreView,
    input: CreateTaskInput,
    id: Seq<char>,
    now: Timestamp,
    post: StoreView,
    r: Result<Task, OsError>,
)
    requires
        pre.wf(),
        TaskService::create_post(pre, input, id, now, post, r),
        r is Ok,
    ensures
        forall|k: int|
            0 <= k < input@.blocked_by.len() ==> {
                let b = #[trigger] input@.blocked_by[k];
                &&& pre.contains(b)
                &&& b != id
                &&& input@.parent_id is Some ==> !pre.is_at_or_above(b, input@.parent_id->0)
            },
        pre.blockers_acyclic() ==> post.blockers_acyclic(),
        post.blockers_unrelated(id),
        forall|x: Seq<char>|
            pre.contains(x) && pre.blockers_unrelated(x) ==> #[trigger] post.blockers_unrelated(x),
{
    lemma_created_unrelated(pre, input, id, now, post, r);
    crate::task_service::lemma_first_refused(pre, input@.parent_id, input@.blocked_by);
    assert forall|k: int| 0 <= k < input@.blocked_by.len() implies {
        let b = #[trigger] input@.blocked_by[k];
        &&& pre.contains(b)
        &&& b != id
        &&& input@.parent_id is Some ==> !pre.is_at_or_above(b, input@.parent_id->0)
    } by {
        assert(!pre.refuses_blocker(input@.parent_id, input@.blocked_by[k]));
    }
    if pre.blockers_acyclic() {
        crate::graph::law_new_task_stays_acyclic(
            pre,
            input@.record(id, now),
            input@.blocked_by,
        );
    }
}

/// The blockers of a new task are unrelated to it, and the tasks that were
/// there keep blockers that are unrelated to them.
proof fn lemma_created_unrelated(
    pre: StoreView,
    input: CreateTaskInput,
    id: Seq<char>,
    now: Timestamp,
    post: StoreView,
    r: Result<Task, OsError>,
)
    requires
        pre.wf(),
        TaskService::create_post(pre, input, id, now, post, r),
        r is Ok,
    ensures
        post.blockers_unrelated(id),
        forall|x: Seq<char>|
            pre.contains(x) && pre.blockers_unrelated(x) ==> #[trigger] post.blockers_unrelated(x),
{
    let t = input@.record(id, now);
    let blockers = input@.blocked_by;
    crate::task_service::lemma_first_refused(pre, input@.parent_id, blockers);
    assert forall|k: int| 0 <= k < blockers.len() implies pre.contains(#[trigger] blockers[k]) by {
        assert(!pre.refuses_blocker(input@.parent_id, blockers[k]));
    }
    crate::model::lemma_inserted_wf(pre, t, blockers);
    crate::model::lemma_with_edges(pre.blockers, id, blockers);
    crate::model::lemma_push_keeps(pre, post, t, id);
    assert forall|x: Seq<char>, b: Seq<char>| #[trigger]
        post.has_edge(x, b) implies pre.contains(b) && (pre.has_edge(x, b) || (x == id
        && blockers.contains(b))) by {
        let i = choose|i: int|
            0 <= i < post.blockers.len() && (#[trigger] post.blockers[i]).task_id == x
                && post.blockers[i].blocker_id == b;
        if i < pre.blockers.len() {
            assert(post.blockers.take(pre.blockers.len() as int)[i] == post.blockers[i]);
            assert(pre.blockers[i].task_id == x && pre.blockers[i].blocker_id == b);
            assert(pre.contains(b)) by {
                reveal(StoreView::blockers_ok);
            }
        } else {
            let k = choose|k: int| 0 <= k < blockers.len() && blockers[k] == b;
            assert(pre.contains(blockers[k]));
        }
    }
    assert forall|x: Seq<char>, b: Seq<char>|
        pre.contains(x) && #[trigger] post.has_edge(x, b) implies post.ancestors(x)
        == pre.ancestors(x) && post.ancestors(b) == pre.ancestors(b) by {
        crate::model::lemma_push_keeps_ancestors(pre, post, t, x);
        crate::model::lemma_push_keeps_ancestors(pre, post, t, b);
    }
    assert forall|b: Seq<char>| #[trigger] post.has_edge(id, b) implies b != id
        && !post.is_ancestor(b, id) && !post.is_ancestor(id, b) by {
        assert(!pre.has_edge(id, b)) by {
            reveal(StoreView::blockers_ok);
        }
        let k = choose|k: int| 0 <= k < blockers.len() && blockers[k] == b;
        assert(!pre.refuses_blocker(input@.parent_id, blockers[k]));
        crate::model::lemma_push_keeps_ancestors(pre, post, t, b);
        crate::model::lemma_ancestors_stored(pre, b);
        if post.is_ancestor(id, b) {
            let j = choose|j: int| 0 <= j < pre.ancestors(b).len() && pre.ancestors(b)[j] == id;
            assert(pre.contains(pre.ancestors(b)[j]));
        }
        if input@.parent_id is Some {
            let p = input@.parent_id->0;
            crate::model::lemma_ancestors_of_child(post, id);
            crate::model::lemma_push_keeps_ancestors(pre, post, t, p);
            if post.is_ancestor(b, id) {
                let j = choose|j: int| 0 <= j < post.ancestors(id).len() && post.ancestors(id)[j] == b;
                if j > 0 {
                    assert(pre.ancestors(p)[j - 1] == b);
                }
            }
        } else {
            assert(post.ancestors(id) =~= Seq::empty());
        }
    }
}

/// A store without cycles of blocker edges has none after a task was
/// deleted or a blocker edge was removed.
pub proof fn law_removal_keeps_acyclic(
    pre: StoreView,
    id: Seq<char>,
    task: Seq<char>,
    blocker: Seq<char>,
)
    requires
        pre.blockers_acyclic(),
    ensures
        pre.without_subtree(id).blockers_acyclic(),
        pre.without_edge(task, blocker).blockers_acyclic(),
        pre.without_edges_to(blocker).blockers_acyclic(),
{
    let a = pre.without_subtree(id);
    lemma_filtered_edges(
        pre,
        a,
        |e: BlockerView|
            pre.outside_subtree(id, e.task_id) && pre.outside_subtree(id, e.blocker_id),
    );
    crate::graph::law_fewer_edges_stay_acyclic(pre, a);
    let b = pre.without_edge(task, blocker);
    lemma_filtered_edges(
        pre,
        b,
        |e: BlockerView| !(e.task_id == task && e.blocker_id == blocker),
    );
    crate::graph::law_fewer_edges_stay_acyclic(pre, b);
    let c = pre.without_edges_to(blocker);
    lemma_filtered_edges(pre, c, |e: BlockerView| e.blocker_id != blocker);
    crate::graph::law_fewer_edges_stay_acyclic(pre, c);
}

/// Whether a store has a cycle of blocker edges depends on its edges
/// alone: the operations that leave the edges as they are keep a store
/// without cycles free of them.
pub proof fn law_same_edges_same_cycles(pre: StoreView, post: StoreView)
    requires
        pre.blockers == post.blockers,
        pre.blockers_acyclic(),
    ensures
        post.blockers_acyclic(),
{
    assert forall|a: Seq<char>, b: Seq<char>| #[trigger] post.has_edge(a, b) implies pre.has_edge(
        a,
        b,
    ) by {}
    crate::graph::law_fewer_edges_stay_acyclic(pre, post);
}

/// After a task was moved under a new parent, none of its blockers is
/// the new parent or an ancestor of the new parent.
pub proof fn law_update_keeps_blockers_apart(
    pre: StoreView,
    id: Seq<char>,
    input: UpdateTaskInput,
    now: Timestamp,
    post: StoreView,
    r: Result<Task, OsError>,
)
    requires
        pre.wf(),
        TaskService::update_post(pre, id, input, now, post, r),
        r is Ok,
        input@.parent_id is Some,
    ensures
        forall|b: Seq<char>| #[trigger]
            pre.has_edge(id, b) ==> !pre.is_at_or_above(b, input@.parent_id->0),
        post.blockers == pre.blockers,
{
    let parent = input@.parent_id->0;
    lemma_first_above(pre, parent, pre.blockers_of(id));
    crate::graph::lemma_blockers_of(pre, id);
    assert forall|b: Seq<char>| #[trigger] pre.has_edge(id, b) implies !pre.is_at_or_above(
        b,
        parent,
    ) by {
        assert(pre.blockers_of(id).contains(b));
        let k = choose|k: int| 0 <= k < pre.blockers_of(id).len() && pre.blockers_of(id)[k] == b;
        assert(!pre.is_at_or_above(pre.blockers_of(id)[k], parent));
    }
}

/// A task whose blockers were unrelated to it has only such blockers
/// after its fields were changed, also where it was moved under a new
/// parent; a change that moves no task keeps this of every task.
pub proof fn law_update_keeps_blockers_unrelated(
    pre: StoreView,
    id: Seq<char>,
    input: UpdateTaskInput,
    now: Timestamp,
    post: StoreView,
    r: Result<Task, OsError>,
)
    requires
        pre.wf(),
        TaskService::update_post(pre, id, input, now, post, r),
        r is Ok,
    ensures
        pre.blockers_unrelated(id) ==> post.blockers_unrelated(id),
        input@.parent_id is None ==> forall|x: Seq<char>|
            pre.blockers_unrelated(x) ==> #[trigger] post.blockers_unrelated(x),
{
    let record = pre.task(id).patched(input@, now);
    crate::model::lemma_task_of(pre, id);
    let i = pre.index_of(id);
    if input@.parent_id is Some {
        let p = input@.parent_id->0;
        law_update_keeps_blockers_apart(pre, id, input, now, post, r);
        crate::model::lemma_reparent_wf(pre, i, record, p);
        crate::model::lemma_replaced_parents(pre, i, record);
        let f = pre.parents();
        let g = post.parents();
        if pre.blockers_unrelated(id) {
            assert forall|b: Seq<char>| #[trigger] post.has_edge(id, b) implies b != id
                && !post.is_ancestor(b, id) && !post.is_ancestor(id, b) by {
                assert(pre.has_edge(id, b));
                assert(!pre.is_at_or_above(b, p));
                crate::model::lemma_chain_moved(f, g, id, p, b);
                crate::model::lemma_chain_moved(f, g, id, p, id);
                if post.is_ancestor(b, id) {
                    let k = choose|k: int|
                        0 <= k < post.ancestors(id).len() && post.ancestors(id)[k] == b;
                    if k > 0 {
                        assert(pre.ancestors(p)[k - 1] == b);
                    }
                }
            }
        }
    } else {
        crate::model::lemma_with_task_at(pre, i, record);
        assert forall|x: Seq<char>| pre.blockers_unrelated(x) implies #[trigger] post.blockers_unrelated(
            x,
        ) by {
            assert forall|b: Seq<char>| #[trigger] post.has_edge(x, b) implies b != x
                && !post.is_ancestor(b, x) && !post.is_ancestor(x, b) by {
                assert(pre.has_edge(x, b));
                crate::model::lemma_same_forest_ancestors(pre, post, x);
                crate::model::lemma_same_forest_ancestors(pre, post, b);
            }
        }
    }
}

/// Where the tasks stay under their parents and no blocker edge is added,
/// as when a task is started, completed, reopened, cancelled or archived,
/// an edge is removed or a learning is added, a task whose blockers were
/// unrelated to it has only such blockers afterwards.
pub proof fn law_same_forest_keeps_blockers_unrelated(
    pre: StoreView,
    post: StoreView,
    x: Seq<char>,
)
    requires
        pre.ids_unique(),
        pre.same_forest(post),
        pre.holds_edges_of(post),
        pre.blockers_unrelated(x),
    ensures
        post.blockers_unrelated(x),
{
    assert forall|b: Seq<char>| #[trigger] post.has_edge(x, b) implies b != x && !post.is_ancestor(
        b,
        x,
    ) && !post.is_ancestor(x, b) by {
        assert(pre.has_edge(x, b));
        crate::model::lemma_same_forest_ancestors(pre, post, x);
        crate::model::lemma_same_forest_ancestors(pre, post, b);
    }
}

/// None of `blockers` is at or above `parent` exactly where the first of
/// them that is cannot be named.
pub proof fn lemma_first_above(s: StoreView, parent: Seq<char>, blockers: Seq<Seq<char>>)
    ensures
        s.first_above(parent, blockers) is None <==> forall|k: int|
            0 <= k < blockers.len() ==> !s.is_at_or_above(#[trigger] blockers[k], parent),
    decreases blockers.len(),
{
    if blockers.len() > 0 {
        let rest = blockers.skip(1);
        lemma_first_above(s, parent, rest);
        if !s.is_at_or_above(blockers[0], parent) {
            if s.first_above(parent, rest) is None {
                assert forall|k: int| 0 <= k < blockers.len() implies !s.is_at_or_above(
                    #[trigger] blockers[k],
                    parent,
                ) by {
                    if k > 0 {
                        assert(rest[k - 1] == blockers[k]);
                    }
                }
            } else {
                let j = choose|j: int| 0 <= j < rest.len() && s.is_at_or_above(#[trigger] rest[j], parent);
                assert(blockers[j + 1] == rest[j]);
            }
        }
        if forall|k: int| 0 <= k < blockers.len() ==> !s.is_at_or_above(#[trigger] blockers[k], parent) {
            assert forall|k: int| 0 <= k < rest.len() implies !s.is_at_or_above(
                #[trigger] rest[k],
                parent,
            ) by {
                assert(rest[k] == blockers[k + 1]);
            }
        }
    }
}

// ----- completing twice -----

/// Completing is idempotent: where a task was completed through the
/// workflow, completing it again, with whatever result and learnings,
/// succeeds and leaves the store as it is. Every task, and so every
/// ancestor, holds the learnings it held after the first time.
pub proof fn law_complete_twice_changes_nothing(
    before: StoreView,
    id: Seq<char>,
    once: StoreView,
    first: Result<Task, OsError>,
    twice: StoreView,
    second: Result<Task, OsError>,
    result: Option<Seq<char>>,
    learnings: Seq<Seq<char>>,
    other: Option<Seq<char>>,
    again: Seq<Seq<char>>,
    ancestor: Seq<char>,
)
    requires
        before.wf(),
        before.completed(id, result, learnings, true, once, first),
        first is Ok,
        once.completed(id, other, again, true, twice, second),
    ensures
        twice == once,
        second is Ok,
        twice.learnings_of(ancestor) == once.learnings_of(ancestor),
{
    let plan1 = choose|plan: Result<CompletePlan, OsError>|
        before.complete_planned(id, plan) && before.complete_done(id, result, learnings, true, plan, once, first);
    assert(before.contains(id));
    crate::workflow::lemma_shape_flags(before, once, id);
    assert(once.task(id).completed && !once.task(id).archived && !once.task(id).cancelled);
    let plan2 = choose|plan: Result<CompletePlan, OsError>|
        once.complete_planned(id, plan) && once.complete_done(id, other, again, true, plan, twice, second);
    assert(plan2 is Ok);
}

} // verus!
