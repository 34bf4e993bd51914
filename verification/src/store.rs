//! The task store: tasks, blocker edges and learnings held in memory, with
//! the queries and writes of the persistence contract.

use vstd::prelude::*;

use crate::error::OsError;
use crate::id::{LearningId, TaskId};
use crate::model::{BlockerView, StoreView};
use crate::order::{by_time, sort_learnings, sort_tasks, sorted, tasks_view};
use crate::types::{
    copy_ids, copy_opt_id, copy_opt_string, ids_view, learnings_view, lids_view, opt_id_view,
    opt_str_view, strs_view, CreateTaskInput, Learning, LearningView, ListTasksFilter, Task,
    TaskView, Timestamp, UpdateTaskInput,
};

verus! {

/// A blocker edge: `task_id` waits for `blocker_id`.
#[derive(Debug, Clone)]
pub struct BlockerRelation {
    pub task_id: TaskId,
    pub blocker_id: TaskId,
}

impl View for BlockerRelation {
    type V = BlockerView;

    open spec fn view(&self) -> BlockerView {
        BlockerView { task_id: self.task_id@, blocker_id: self.blocker_id@ }
    }
}

/// The views of a list of blocker edges, in order.
pub open spec fn edges_view(v: Seq<BlockerRelation>) -> Seq<BlockerView> {
    Seq::new(v.len(), |i: int| v[i]@)
}

/// What one step adds to the filter of a growing prefix.
pub proof fn lemma_filter_step<A>(s: Seq<A>, p: spec_fn(A) -> bool, i: int)
    requires
        0 <= i < s.len(),
    ensures
        s.take(i + 1).filter(p) == if p(s[i]) {
            s.take(i).filter(p).push(s[i])
        } else {
            s.take(i).filter(p)
        },
{
    assert(s.take(i + 1) =~= s.take(i).push(s[i]));
    s.take(i).lemma_filter_push(s[i], p);
}

/// The view of an optional text.
pub open spec fn opt_text(o: Option<&str>) -> Option<Seq<char>> {
    match o {
        Some(s) => Some(s@),
        None => None,
    }
}

/// An owned copy of an optional text.
pub fn own_opt_text(o: Option<&str>) -> (r: Option<String>)
    ensures
        opt_str_view(r) == opt_text(o),
{
    match o {
        Some(s) => Some(String::from_str(s)),
        None => None,
    }
}

/// The task store.
pub struct Store {
    tasks: Vec<Task>,
    blockers: Vec<BlockerRelation>,
    learnings: Vec<Learning>,
}

impl View for Store {
    type V = StoreView;

    closed spec fn view(&self) -> StoreView {
        StoreView {
            tasks: tasks_view(self.tasks@),
            blockers: edges_view(self.blockers@),
            learnings: learnings_view(self.learnings@),
        }
    }
}

impl Store {
    /// The empty store.
    pub fn new() -> (s: Store)
        ensures
            s@ == StoreView::empty(),
            s@.wf(),
    {
        let s = Store { tasks: Vec::new(), blockers: Vec::new(), learnings: Vec::new() };
        proof {
            reveal(StoreView::parents_exist);
            reveal(StoreView::depth_bounded);
            reveal(StoreView::blockers_ok);
            reveal(StoreView::learnings_ok);
        }
        assert(s@.tasks =~= Seq::empty());
        assert(s@.blockers =~= Seq::empty());
        assert(s@.learnings =~= Seq::empty());
        s
    }

    /// Where the task with this identifier is stored.
    fn find(&self, id: &TaskId) -> (r: Option<usize>)
        ensures
            r is Some <==> self@.contains(id@),
            r matches Some(i) ==> i < self.tasks@.len() && self.tasks@[i as int].id@ == id@,
            r matches Some(i) ==> self@.ids_unique() ==> i == self@.index_of(id@) && self@.task(id@)
                == self.tasks@[i as int]@,
    {
        let mut i: usize = 0;
        while i < self.tasks.len()
            invariant
                i <= self.tasks@.len(),
                forall|j: int| 0 <= j < i ==> self.tasks@[j].id@ != id@,
            decreases self.tasks@.len() - i,
        {
            if self.tasks[i].id == *id {
                proof {
                    assert(self@.tasks[i as int].id == id@);
                    if self@.ids_unique() {
                        crate::model::lemma_task_at(self@, i as int);
                    }
                }
                return Some(i);
            }
            i += 1;
        }
        proof {
            assert forall|j: int| 0 <= j < self@.tasks.len() implies (#[trigger] self@.tasks[j]).id
                != id@ by {
                assert(self.tasks@[j].id@ != id@);
            }
        }
        None
    }

    /// Whether a task with this identifier is stored.
    pub fn task_exists(&self, id: &TaskId) -> (r: bool)
        ensures
            r == self@.contains(id@),
    {
        self.find(id).is_some()
    }

    /// The blockers of a task, in stored order.
    pub fn get_blockers(&self, task_id: &TaskId) -> (r: Vec<TaskId>)
        ensures
            ids_view(r@) == self@.blockers_of(task_id@),
    {
        let ghost p = |e: BlockerView| e.task_id == task_id@;
        let ghost f = |e: BlockerView| e.blocker_id;
        let mut out: Vec<TaskId> = Vec::new();
        let mut i: usize = 0;
        proof {
            assert(self@.blockers.take(0).filter(p) =~= Seq::empty());
            assert(ids_view(out@) =~= Seq::<BlockerView>::empty().map_values(f));
        }
        while i < self.blockers.len()
            invariant
                i <= self.blockers@.len(),
                p == |e: BlockerView| e.task_id == task_id@,
                f == |e: BlockerView| e.blocker_id,
                ids_view(out@) == self@.blockers.take(i as int).filter(p).map_values(f),
            decreases self.blockers@.len() - i,
        {
            proof {
                lemma_filter_step(self@.blockers, p, i as int);
            }
            if self.blockers[i].task_id == *task_id {
                let ghost before = out@;
                out.push(self.blockers[i].blocker_id.clone());
                proof {
                    let kept = self@.blockers.take(i as int).filter(p);
                    assert(ids_view(out@) =~= ids_view(before).push(self.blockers@[i as int].blocker_id@));
                    assert(kept.push(self@.blockers[i as int]).map_values(f) =~= kept.map_values(
                        f,
                    ).push(self@.blockers[i as int].blocker_id));
                }
            }
            i += 1;
        }
        proof {
            assert(self@.blockers.take(i as int) =~= self@.blockers);
        }
        out
    }

    /// The tasks that wait for a task, in stored order.
    pub fn get_blocking(&self, blocker_id: &TaskId) -> (r: Vec<TaskId>)
        ensures
            ids_view(r@) == self@.blocked_by_it(blocker_id@),
    {
        let ghost p = |e: BlockerView| e.blocker_id == blocker_id@;
        let ghost f = |e: BlockerView| e.task_id;
        let mut out: Vec<TaskId> = Vec::new();
        let mut i: usize = 0;
        proof {
            assert(self@.blockers.take(0).filter(p) =~= Seq::empty());
            assert(ids_view(out@) =~= Seq::<BlockerView>::empty().map_values(f));
        }
        while i < self.blockers.len()
            invariant
                i <= self.blockers@.len(),
                p == |e: BlockerView| e.blocker_id == blocker_id@,
                f == |e: BlockerView| e.task_id,
                ids_view(out@) == self@.blockers.take(i as int).filter(p).map_values(f),
            decreases self.blockers@.len() - i,
        {
            proof {
                lemma_filter_step(self@.blockers, p, i as int);
            }
            if self.blockers[i].blocker_id == *blocker_id {
                let ghost before = out@;
                out.push(self.blockers[i].task_id.clone());
                proof {
                    let kept = self@.blockers.take(i as int).filter(p);
                    assert(ids_view(out@) =~= ids_view(before).push(self.blockers@[i as int].task_id@));
                    assert(kept.push(self@.blockers[i as int]).map_values(f) =~= kept.map_values(
                        f,
                    ).push(self@.blockers[i as int].task_id));
                }
            }
            i += 1;
        }
        proof {
            assert(self@.blockers.take(i as int) =~= self@.blockers);
        }
        out
    }

    /// The task at place `i`, with its blocker edges filled in.
    fn task_at(&self, i: usize) -> (t: Task)
        requires
            i < self.tasks@.len(),
        ensures
            t@ == self@.tasks[i as int],
            self.is_hydrated(t),
    {
        let mut t = self.tasks[i].stored_copy();
        t.blocked_by = self.get_blockers(&t.id);
        t.blocks = self.get_blocking(&t.id);
        t
    }

    /// `t` carries its blocker edges as the store holds them, and no other
    /// derived field.
    pub open spec fn is_hydrated(&self, t: Task) -> bool {
        &&& ids_view(t.blocked_by@) == self@.blockers_of(t@.id)
        &&& ids_view(t.blocks@) == self@.blocked_by_it(t@.id)
        &&& t.context_chain is None
        &&& t.learnings is None
        &&& t.depth is None
        &&& !t.effectively_blocked
    }

    /// The task with this identifier, with its blocker edges.
    pub fn get_task(&self, id: &TaskId) -> (r: Option<Task>)
        requires
            self@.wf(),
        ensures
            r is Some <==> self@.contains(id@),
            r matches Some(t) ==> t@ == self@.task(id@) && self.is_hydrated(t),
    {
        match self.find(id) {
            Some(i) => Some(self.task_at(i)),
            None => None,
        }
    }

    /// The parent of a task; `None` for a root and for an unknown identifier.
    pub fn parent_id_of(&self, id: &TaskId) -> (r: Option<TaskId>)
        requires
            self@.ids_unique(),
        ensures
            opt_id_view(r) == self@.parent_of(id@),
    {
        match self.find(id) {
            Some(i) => crate::types::copy_opt_id(&self.tasks[i].parent_id),
            None => None,
        }
    }

    /// The ancestors of a task, nearest first.
    pub fn ancestor_ids(&self, id: &TaskId) -> (r: Vec<TaskId>)
        requires
            self@.ids_unique(),
        ensures
            ids_view(r@) == self@.ancestors(id@),
    {
        let mut out: Vec<TaskId> = Vec::new();
        match self.parent_id_of(id) {
            None => {},
            Some(p) => {
                match self.parent_id_of(&p) {
                    None => {
                        out.push(p);
                    },
                    Some(g) => {
                        match self.parent_id_of(&g) {
                            None => {
                                out.push(p);
                                out.push(g);
                            },
                            Some(h) => {
                                out.push(p);
                                out.push(g);
                                out.push(h);
                            },
                        }
                    },
                }
            },
        }
        assert(ids_view(out@) =~= self@.ancestors(id@));
        out
    }

    /// The depth of a task: 0 for a milestone, 1 for a task, 2 for a subtask.
    pub fn get_task_depth(&self, id: &TaskId) -> (r: i32)
        requires
            self@.ids_unique(),
        ensures
            r == self@.depth(id@),
            0 <= r <= 3,
    {
        let chain = self.ancestor_ids(id);
        assert(chain@.len() == ids_view(chain@).len());
        chain.len() as i32
    }

    /// Whether `ancestor` is among the ancestors of `id`.
    pub fn is_ancestor(&self, ancestor: &TaskId, id: &TaskId) -> (r: bool)
        requires
            self@.wf(),
        ensures
            r == self@.is_ancestor(ancestor@, id@),
    {
        let chain = self.ancestor_ids(id);
        let mut i: usize = 0;
        while i < chain.len()
            invariant
                i <= chain@.len(),
                ids_view(chain@) == self@.ancestors(id@),
                forall|j: int| 0 <= j < i ==> self@.ancestors(id@)[j] != ancestor@,
            decreases chain@.len() - i,
        {
            assert(ids_view(chain@)[i as int] == chain@[i as int]@);
            if chain[i] == *ancestor {
                return true;
            }
            i += 1;
        }
        assert(ids_view(chain@).len() == chain@.len());
        false
    }

    /// The children of a task, in stored order, each with its blocker edges.
    pub fn get_children(&self, parent_id: &TaskId) -> (r: Vec<Task>)
        requires
            self@.wf(),
        ensures
            tasks_view(r@) == self@.children(parent_id@),
            forall|k: int| 0 <= k < r@.len() ==> self.is_hydrated(#[trigger] r@[k]),
    {
        let ghost p = |t: TaskView| t.parent_id == Some(parent_id@);
        let mut out: Vec<Task> = Vec::new();
        let mut i: usize = 0;
        proof {
            assert(self@.tasks.take(0).filter(p) =~= Seq::empty());
            assert(tasks_view(out@) =~= Seq::empty());
        }
        while i < self.tasks.len()
            invariant
                i <= self.tasks@.len(),
                p == |t: TaskView| t.parent_id == Some(parent_id@),
                tasks_view(out@) == self@.tasks.take(i as int).filter(p),
                forall|k: int| 0 <= k < out@.len() ==> self.is_hydrated(#[trigger] out@[k]),
            decreases self.tasks@.len() - i,
        {
            proof {
                lemma_filter_step(self@.tasks, p, i as int);
            }
            let is_child = match &self.tasks[i].parent_id {
                Some(pid) => *pid == *parent_id,
                None => false,
            };
            if is_child {
                let ghost before = out@;
                let t = self.task_at(i);
                out.push(t);
                proof {
                    assert(tasks_view(out@) =~= tasks_view(before).push(self@.tasks[i as int]));
                }
            }
            i += 1;
        }
        proof {
            assert(self@.tasks.take(i as int) =~= self@.tasks);
        }
        out
    }

    /// The children of a task in traversal order.
    pub fn get_children_ordered(&self, parent_id: &TaskId) -> (r: Vec<Task>)
        requires
            self@.wf(),
        ensures
            tasks_view(r@) == self@.children_ordered(parent_id@),
            forall|k: int| 0 <= k < r@.len() ==> self.is_hydrated(#[trigger] r@[k]),
    {
        let children = self.get_children(parent_id);
        sort_tasks(children)
    }

    /// The tasks without a parent, in traversal order.
    pub fn list_roots(&self) -> (r: Vec<Task>)
        requires
            self@.wf(),
        ensures
            tasks_view(r@) == self@.roots(),
            forall|k: int| 0 <= k < r@.len() ==> self.is_hydrated(#[trigger] r@[k]),
    {
        let ghost p = |t: TaskView| t.parent_id is None;
        let mut out: Vec<Task> = Vec::new();
        let mut i: usize = 0;
        proof {
            assert(self@.tasks.take(0).filter(p) =~= Seq::empty());
            assert(tasks_view(out@) =~= Seq::empty());
        }
        while i < self.tasks.len()
            invariant
                i <= self.tasks@.len(),
                p == |t: TaskView| t.parent_id is None,
                tasks_view(out@) == self@.tasks.take(i as int).filter(p),
                forall|k: int| 0 <= k < out@.len() ==> self.is_hydrated(#[trigger] out@[k]),
            decreases self.tasks@.len() - i,
        {
            proof {
                lemma_filter_step(self@.tasks, p, i as int);
            }
            if self.tasks[i].parent_id.is_none() {
                let ghost before = out@;
                let t = self.task_at(i);
                out.push(t);
                proof {
                    assert(tasks_view(out@) =~= tasks_view(before).push(self@.tasks[i as int]));
                }
            }
            i += 1;
        }
        proof {
            assert(self@.tasks.take(i as int) =~= self@.tasks);
        }
        sort_tasks(out)
    }

    /// The tasks below a task, at any depth, in stored order.
    pub fn get_all_descendants(&self, id: &TaskId) -> (r: Vec<Task>)
        requires
            self@.wf(),
        ensures
            tasks_view(r@) == self@.descendants(id@),
            forall|k: int| 0 <= k < r@.len() ==> self.is_hydrated(#[trigger] r@[k]),
    {
        let ghost view = self@;
        let ghost p = |t: TaskView| view.is_ancestor(id@, t.id);
        let mut out: Vec<Task> = Vec::new();
        let mut i: usize = 0;
        proof {
            assert(self@.tasks.take(0).filter(p) =~= Seq::empty());
            assert(tasks_view(out@) =~= Seq::empty());
        }
        while i < self.tasks.len()
            invariant
                i <= self.tasks@.len(),
                self@.wf(),
                view == self@,
                p == |t: TaskView| view.is_ancestor(id@, t.id),
                tasks_view(out@) == self@.tasks.take(i as int).filter(p),
                forall|k: int| 0 <= k < out@.len() ==> self.is_hydrated(#[trigger] out@[k]),
            decreases self.tasks@.len() - i,
        {
            proof {
                lemma_filter_step(self@.tasks, p, i as int);
            }
            if self.is_ancestor(id, &self.tasks[i].id) {
                let ghost before = out@;
                let t = self.task_at(i);
                out.push(t);
                proof {
                    assert(tasks_view(out@) =~= tasks_view(before).push(self@.tasks[i as int]));
                }
            }
            i += 1;
        }
        proof {
            assert(self@.tasks.take(i as int) =~= self@.tasks);
        }
        out
    }

    /// Whether some child of the task is neither completed nor cancelled.
    pub fn has_pending_children(&self, id: &TaskId) -> (r: bool)
        ensures
            r == self@.has_pending_children(id@),
    {
        let mut i: usize = 0;
        while i < self.tasks.len()
            invariant
                i <= self.tasks@.len(),
                forall|j: int|
                    0 <= j < i ==> !((#[trigger] self@.tasks[j]).parent_id == Some(id@)
                        && !self@.tasks[j].is_finished_for_hierarchy()),
            decreases self.tasks@.len() - i,
        {
            let is_child = match &self.tasks[i].parent_id {
                Some(pid) => *pid == *id,
                None => false,
            };
            if is_child && !self.tasks[i].is_finished_for_hierarchy() {
                assert(self@.tasks[i as int].parent_id == Some(id@));
                return true;
            }
            i += 1;
        }
        false
    }

    /// Whether the task is stored and completed.
    pub fn is_task_completed(&self, id: &TaskId) -> (r: bool)
        requires
            self@.wf(),
        ensures
            r == (self@.contains(id@) && self@.task(id@).completed),
    {
        match self.find(id) {
            Some(i) => self.tasks[i].completed,
            None => false,
        }
    }

    /// Whether the task is stored, completed and not cancelled.
    pub fn is_task_satisfies_blocker(&self, id: &TaskId) -> (r: bool)
        requires
            self@.wf(),
        ensures
            r == self@.satisfies(id@),
    {
        match self.find(id) {
            Some(i) => self.tasks[i].satisfies_blocker(),
            None => false,
        }
    }

    // ----- writes to one record -----

    /// What a write to the record of `id` leaves behind: the new record in
    /// the store and handed back, or `TaskNotFound` and no change.
    pub open spec fn wrote(
        pre: StoreView,
        post: Store,
        id: Seq<char>,
        record: TaskView,
        r: Result<Task, OsError>,
    ) -> bool {
        if pre.contains(id) {
            &&& r matches Ok(t)
            &&& t@ == record
            &&& post.is_hydrated(t)
            &&& post@ == pre.with_task(record)
        } else {
            &&& r matches Err(OsError::TaskNotFound(missing))
            &&& missing@ == id
            &&& post@ == pre
        }
    }

    /// What a write to a field of `id` leaves behind: the new record, or no
    /// change where the task is not stored.
    pub open spec fn set_field(pre: StoreView, post: StoreView, id: Seq<char>, record: TaskView) -> bool {
        if pre.contains(id) {
            post == pre.with_task(record)
        } else {
            post == pre
        }
    }

    /// Puts `t` in the place of the task at `i` and hands back a copy with
    /// its blocker edges.
    fn put(&mut self, i: usize, t: Task) -> (r: Task)
        requires
            old(self)@.wf(),
            i < old(self).tasks@.len(),
            t@.id == old(self)@.tasks[i as int].id,
            t@.parent_id == old(self)@.tasks[i as int].parent_id,
        ensures
            final(self)@.wf(),
            final(self)@ == old(self)@.with_task(t@),
            final(self)@.same_forest(old(self)@),
            r@ == t@,
            final(self).is_hydrated(r),
    {
        proof {
            crate::model::lemma_with_task_at(self@, i as int, t@);
        }
        let ghost pre = self@;
        self.tasks.set(i, t);
        assert(self@.tasks =~= pre.tasks.update(i as int, t@));
        self.task_at(i)
    }

    /// Marks a task as started at `now`, unless it was started before.
    pub fn start_task(&mut self, id: &TaskId, now: Timestamp) -> (r: Result<Task, OsError>)
        requires
            old(self)@.wf(),
        ensures
            final(self)@.wf(),
            Self::wrote(old(self)@, *final(self), id@, old(self)@.task(id@).started(now), r),
    {
        match self.find(id) {
            None => Err(OsError::TaskNotFound(id.clone())),
            Some(i) => {
                let mut t = self.tasks[i].stored_copy();
                if t.started_at.is_none() {
                    t.started_at = Some(now);
                    t.updated_at = now;
                }
                Ok(self.put(i, t))
            },
        }
    }

    /// Marks a task as completed at `now`, with its result and commit.
    pub fn complete_task(
        &mut self,
        id: &TaskId,
        result: Option<&str>,
        commit_sha: Option<&str>,
        now: Timestamp,
    ) -> (r: Result<Task, OsError>)
        requires
            old(self)@.wf(),
        ensures
            final(self)@.wf(),
            Self::wrote(
                old(self)@,
                *final(self),
                id@,
                old(self)@.task(id@).finished(opt_text(result), opt_text(commit_sha), now),
                r,
            ),
    {
        match self.find(id) {
            None => Err(OsError::TaskNotFound(id.clone())),
            Some(i) => {
                let mut t = self.tasks[i].stored_copy();
                t.completed = true;
                t.completed_at = Some(now);
                t.result = own_opt_text(result);
                t.commit_sha = own_opt_text(commit_sha);
                t.updated_at = now;
                Ok(self.put(i, t))
            },
        }
    }

    /// Makes a task pending again.
    pub fn reopen_task(&mut self, id: &TaskId, now: Timestamp) -> (r: Result<Task, OsError>)
        requires
            old(self)@.wf(),
        ensures
            final(self)@.wf(),
            Self::wrote(old(self)@, *final(self), id@, old(self)@.task(id@).reopened(now), r),
    {
        match self.find(id) {
            None => Err(OsError::TaskNotFound(id.clone())),
            Some(i) => {
                let mut t = self.tasks[i].stored_copy();
                t.completed = false;
                t.completed_at = None;
                t.started_at = None;
                t.updated_at = now;
                Ok(self.put(i, t))
            },
        }
    }

    /// Marks a task as cancelled at `now`.
    pub fn cancel_task(&mut self, id: &TaskId, now: Timestamp) -> (r: Result<Task, OsError>)
        requires
            old(self)@.wf(),
        ensures
            final(self)@.wf(),
            Self::wrote(old(self)@, *final(self), id@, old(self)@.task(id@).cancelled_now(now), r),
    {
        match self.find(id) {
            None => Err(OsError::TaskNotFound(id.clone())),
            Some(i) => {
                let mut t = self.tasks[i].stored_copy();
                t.cancelled = true;
                t.cancelled_at = Some(now);
                t.updated_at = now;
                Ok(self.put(i, t))
            },
        }
    }

    /// Marks a task as archived at `now`.
    pub fn archive_task(&mut self, id: &TaskId, now: Timestamp) -> (r: Result<Task, OsError>)
        requires
            old(self)@.wf(),
        ensures
            final(self)@.wf(),
            Self::wrote(old(self)@, *final(self), id@, old(self)@.task(id@).archived_now(now), r),
    {
        match self.find(id) {
            None => Err(OsError::TaskNotFound(id.clone())),
            Some(i) => {
                let mut t = self.tasks[i].stored_copy();
                t.archived = true;
                t.archived_at = Some(now);
                t.updated_at = now;
                Ok(self.put(i, t))
            },
        }
    }

    /// Records the bookmark of a task.
    pub fn set_bookmark(&mut self, id: &TaskId, bookmark: &str, now: Timestamp)
        requires
            old(self)@.wf(),
        ensures
            final(self)@.wf(),
            Self::set_field(
                old(self)@,
                final(self)@,
                id@,
                old(self)@.task(id@).with_bookmark(Some(bookmark@), now),
            ),
    {
        if let Some(i) = self.find(id) {
            let mut t = self.tasks[i].stored_copy();
            t.bookmark = Some(String::from_str(bookmark));
            t.updated_at = now;
            let _ = self.put(i, t);
        }
    }

    /// Records the commit a task was started at.
    pub fn set_start_commit(&mut self, id: &TaskId, start_commit: &str, now: Timestamp)
        requires
            old(self)@.wf(),
        ensures
            final(self)@.wf(),
            Self::set_field(
                old(self)@,
                final(self)@,
                id@,
                old(self)@.task(id@).with_start_commit(start_commit@, now),
            ),
    {
        if let Some(i) = self.find(id) {
            let mut t = self.tasks[i].stored_copy();
            t.start_commit = Some(String::from_str(start_commit));
            t.updated_at = now;
            let _ = self.put(i, t);
        }
    }

    /// Removes the bookmark of a task.
    pub fn clear_bookmark(&mut self, id: &TaskId, now: Timestamp)
        requires
            old(self)@.wf(),
        ensures
            final(self)@.wf(),
            Self::set_field(
                old(self)@,
                final(self)@,
                id@,
                old(self)@.task(id@).with_bookmark(None, now),
            ),
    {
        if let Some(i) = self.find(id) {
            let mut t = self.tasks[i].stored_copy();
            t.bookmark = None;
            t.updated_at = now;
            let _ = self.put(i, t);
        }
    }

    /// Removes bookmark, start commit and commit of a task.
    pub fn clear_vcs_fields(&mut self, id: &TaskId, now: Timestamp)
        requires
            old(self)@.wf(),
        ensures
            final(self)@.wf(),
            Self::set_field(
                old(self)@,
                final(self)@,
                id@,
                old(self)@.task(id@).without_vcs_fields(now),
            ),
    {
        if let Some(i) = self.find(id) {
            let mut t = self.tasks[i].stored_copy();
            t.bookmark = None;
            t.start_commit = None;
            t.commit_sha = None;
            t.updated_at = now;
            let _ = self.put(i, t);
        }
    }

    // ----- new tasks and blocker edges -----

    /// Whether the edge from `task` to `blocker` is stored.
    fn edge_exists(&self, task: &TaskId, blocker: &TaskId) -> (r: bool)
        ensures
            r == self@.blockers.contains(BlockerView { task_id: task@, blocker_id: blocker@ }),
            r == self@.has_edge(task@, blocker@),
    {
        let ghost edge = BlockerView { task_id: task@, blocker_id: blocker@ };
        let mut i: usize = 0;
        while i < self.blockers.len()
            invariant
                i <= self.blockers@.len(),
                edge == (BlockerView { task_id: task@, blocker_id: blocker@ }),
                forall|j: int| 0 <= j < i ==> self@.blockers[j] != edge,
            decreases self.blockers@.len() - i,
        {
            if self.blockers[i].task_id == *task && self.blockers[i].blocker_id == *blocker {
                assert(self@.blockers[i as int] == edge);
                return true;
            }
            i += 1;
        }
        false
    }

    /// The first of `ids` that is not stored.
    pub fn first_missing(&self, ids: &Vec<TaskId>) -> (r: Option<TaskId>)
        ensures
            opt_id_view(r) == self@.first_missing(ids_view(ids@)),
    {
        let ghost all = ids_view(ids@);
        let mut i: usize = 0;
        proof {
            assert(all.skip(0) =~= all);
        }
        while i < ids.len()
            invariant
                i <= ids@.len(),
                all == ids_view(ids@),
                self@.first_missing(all) == self@.first_missing(all.skip(i as int)),
            decreases ids@.len() - i,
        {
            proof {
                assert(all.skip(i as int)[0] == ids@[i as int]@);
                assert(all.skip(i as int).skip(1) =~= all.skip(i + 1));
            }
            if !self.task_exists(&ids[i]) {
                return Some(ids[i].clone());
            }
            i += 1;
        }
        None
    }

    /// Adds an edge from `task` to each of `blockers` that is not there yet.
    fn push_edges(&mut self, task: &TaskId, blockers: &Vec<TaskId>)
        ensures
            final(self)@.tasks == old(self)@.tasks,
            final(self)@.learnings == old(self)@.learnings,
            final(self)@.blockers == crate::model::with_edges(
                old(self)@.blockers,
                task@,
                ids_view(blockers@),
            ),
    {
        let ghost all = ids_view(blockers@);
        let ghost start = self@.blockers;
        let mut i: usize = 0;
        proof {
            assert(all.take(0) =~= Seq::empty());
        }
        while i < blockers.len()
            invariant
                i <= blockers@.len(),
                all == ids_view(blockers@),
                self@.tasks == old(self)@.tasks,
                self@.learnings == old(self)@.learnings,
                start == old(self)@.blockers,
                self@.blockers == crate::model::with_edges(start, task@, all.take(i as int)),
            decreases blockers@.len() - i,
        {
            proof {
                assert(all.take(i + 1).drop_last() =~= all.take(i as int));
                assert(all.take(i + 1).last() == blockers@[i as int]@);
            }
            if !self.edge_exists(task, &blockers[i]) {
                let ghost before = self@.blockers;
                self.blockers.push(
                    BlockerRelation { task_id: task.clone(), blocker_id: blockers[i].clone() },
                );
                assert(self@.blockers =~= before.push(
                    BlockerView { task_id: task@, blocker_id: blockers@[i as int]@ },
                ));
            }
            i += 1;
        }
        proof {
            assert(all.take(i as int) =~= all);
        }
    }

    /// What `create_task` answers and leaves behind.
    pub open spec fn created(
        pre: StoreView,
        post: Store,
        input: CreateTaskInput,
        id: Seq<char>,
        now: Timestamp,
        r: Result<Task, OsError>,
    ) -> bool {
        let parent = input@.parent_id;
        if pre.contains(id) {
            r matches Err(OsError::Database(_)) && post@ == pre
        } else if parent is Some && !pre.contains(parent->0) {
            r matches Err(OsError::ParentNotFound(p)) && p@ == parent->0 && post@ == pre
        } else if parent is Some && pre.depth(parent->0) >= crate::model::max_depth() {
            r matches Err(OsError::MaxDepthExceeded) && post@ == pre
        } else if pre.first_missing(input@.blocked_by) is Some {
            r matches Err(OsError::BlockerNotFound(b)) && Some(b@) == pre.first_missing(
                input@.blocked_by,
            ) && post@ == pre
        } else {
            &&& r matches Ok(t)
            &&& t@ == input@.record(id, now)
            &&& post.is_hydrated(t)
            &&& post@ == pre.inserted(input@.record(id, now), input@.blocked_by)
        }
    }

    /// Stores a new task under the identifier `id`, created at `now`, with
    /// an edge to each of its blockers. Refuses an identifier that is
    /// taken, a parent or blocker that is not stored, and a parent that is
    /// a subtask.
    pub fn create_task(&mut self, input: &CreateTaskInput, id: TaskId, now: Timestamp) -> (r:
        Result<Task, OsError>)
        requires
            old(self)@.wf(),
        ensures
            final(self)@.wf(),
            Self::created(old(self)@, *final(self), *input, id@, now, r),
    {
        if self.task_exists(&id) {
            return Err(OsError::Database(String::from_str("UNIQUE constraint failed: tasks.id")));
        }
        if let Some(parent) = &input.parent_id {
            if !self.task_exists(parent) {
                return Err(OsError::ParentNotFound(parent.clone()));
            }
            if self.get_task_depth(parent) >= 2 {
                return Err(OsError::MaxDepthExceeded);
            }
        }
        if let Some(missing) = self.first_missing(&input.blocked_by) {
            return Err(OsError::BlockerNotFound(missing));
        }
        let context = match &input.context {
            Some(c) => c.clone(),
            None => String::new(),
        };
        let priority = match input.priority {
            Some(p) => p,
            None => 1,
        };
        let task = Task {
            id: id,
            parent_id: copy_opt_id(&input.parent_id),
            description: input.description.clone(),
            context: context,
            context_chain: None,
            learnings: None,
            result: None,
            priority: priority,
            completed: false,
            completed_at: None,
            created_at: now,
            updated_at: now,
            started_at: None,
            commit_sha: None,
            bookmark: None,
            start_commit: None,
            depth: None,
            blocked_by: Vec::new(),
            blocks: Vec::new(),
            effectively_blocked: false,
            cancelled: false,
            cancelled_at: None,
            archived: false,
            archived_at: None,
        };
        proof {
            assert(task@ == input@.record(task@.id, now));
            crate::model::lemma_first_missing(self@, input@.blocked_by);
            crate::model::lemma_inserted_wf(self@, task@, input@.blocked_by);
        }
        let ghost pre = self@;
        let ghost record = task@;
        let task_id = task.id.clone();
        self.tasks.push(task);
        assert(self@.tasks =~= pre.tasks.push(record));
        self.push_edges(&task_id, &input.blocked_by);
        let at = self.tasks.len() - 1;
        Ok(self.task_at(at))
    }

    /// What `add_blocker` answers and leaves behind.
    pub open spec fn edge_added(
        pre: StoreView,
        post: StoreView,
        task: Seq<char>,
        blocker: Seq<char>,
        r: Result<(), OsError>,
    ) -> bool {
        if !pre.contains(task) {
            r matches Err(OsError::TaskNotFound(t)) && t@ == task && post == pre
        } else if !pre.contains(blocker) {
            r matches Err(OsError::BlockerNotFound(b)) && b@ == blocker && post == pre
        } else if task == blocker {
            &&& r matches Err(OsError::InvalidBlockerRelation { kind, task_id, blocker_id, .. })
            &&& kind == crate::error::BlockerRelationKind::Itself
            &&& task_id@ == task
            &&& blocker_id@ == blocker
            &&& post == pre
        } else {
            r is Ok && post == pre.with_edge(task, blocker)
        }
    }

    /// Stores the edge from `task_id` to `blocker_id`, once. Refuses an
    /// end that is not stored and an edge from a task to itself.
    pub fn add_blocker(&mut self, task_id: &TaskId, blocker_id: &TaskId) -> (r: Result<
        (),
        OsError,
    >)
        requires
            old(self)@.wf(),
        ensures
            final(self)@.wf(),
            Self::edge_added(old(self)@, final(self)@, task_id@, blocker_id@, r),
    {
        if !self.task_exists(task_id) {
            return Err(OsError::TaskNotFound(task_id.clone()));
        }
        if !self.task_exists(blocker_id) {
            return Err(OsError::BlockerNotFound(blocker_id.clone()));
        }
        if *task_id == *blocker_id {
            return Err(
                OsError::InvalidBlockerRelation {
                    kind: crate::error::BlockerRelationKind::Itself,
                    message: String::from_str("Cannot block a task by itself"),
                    task_id: task_id.clone(),
                    blocker_id: blocker_id.clone(),
                },
            );
        }
        proof {
            crate::model::lemma_with_edge_wf(self@, task_id@, blocker_id@);
            crate::model::lemma_with_edge_edges(self@, task_id@, blocker_id@);
        }
        if !self.edge_exists(task_id, blocker_id) {
            let ghost before = self@.blockers;
            self.blockers.push(
                BlockerRelation { task_id: task_id.clone(), blocker_id: blocker_id.clone() },
            );
            assert(self@.blockers =~= before.push(
                BlockerView { task_id: task_id@, blocker_id: blocker_id@ },
            ));
        }
        Ok(())
    }

    /// Removes the edge from `task_id` to `blocker_id`, if it is stored.
    pub fn remove_blocker(&mut self, task_id: &TaskId, blocker_id: &TaskId)
        requires
            old(self)@.wf(),
        ensures
            final(self)@.wf(),
            final(self)@ == old(self)@.without_edge(task_id@, blocker_id@),
    {
        let ghost p = |e: BlockerView| !(e.task_id == task_id@ && e.blocker_id == blocker_id@);
        let ghost pre = self@;
        let mut kept: Vec<BlockerRelation> = Vec::new();
        let mut i: usize = 0;
        proof {
            assert(pre.blockers.take(0).filter(p) =~= Seq::empty());
            assert(edges_view(kept@) =~= Seq::empty());
        }
        while i < self.blockers.len()
            invariant
                i <= self.blockers@.len(),
                self@ == pre,
                p == |e: BlockerView| !(e.task_id == task_id@ && e.blocker_id == blocker_id@),
                edges_view(kept@) == pre.blockers.take(i as int).filter(p),
            decreases self.blockers@.len() - i,
        {
            proof {
                lemma_filter_step(pre.blockers, p, i as int);
            }
            let e = &self.blockers[i];
            if !(e.task_id == *task_id && e.blocker_id == *blocker_id) {
                let ghost before = kept@;
                kept.push(
                    BlockerRelation { task_id: e.task_id.clone(), blocker_id: e.blocker_id.clone() },
                );
                assert(edges_view(kept@) =~= edges_view(before).push(pre.blockers[i as int]));
            }
            i += 1;
        }
        proof {
            assert(pre.blockers.take(i as int) =~= pre.blockers);
            crate::model::lemma_edges_filtered_wf(pre, p);
        }
        self.blockers = kept;
    }

    /// Removes every edge to `blocker_id` and says how many there were.
    pub fn remove_blocker_from_all(&mut self, blocker_id: &TaskId) -> (count: usize)
        requires
            old(self)@.wf(),
        ensures
            final(self)@.wf(),
            final(self)@ == old(self)@.without_edges_to(blocker_id@),
            count == old(self)@.blockers.len() - final(self)@.blockers.len(),
    {
        let ghost p = |e: BlockerView| e.blocker_id != blocker_id@;
        let ghost pre = self@;
        let mut kept: Vec<BlockerRelation> = Vec::new();
        let mut i: usize = 0;
        proof {
            assert(pre.blockers.take(0).filter(p) =~= Seq::empty());
            assert(edges_view(kept@) =~= Seq::empty());
        }
        while i < self.blockers.len()
            invariant
                i <= self.blockers@.len(),
                self@ == pre,
                p == |e: BlockerView| e.blocker_id != blocker_id@,
                edges_view(kept@) == pre.blockers.take(i as int).filter(p),
                kept@.len() <= i,
            decreases self.blockers@.len() - i,
        {
            proof {
                lemma_filter_step(pre.blockers, p, i as int);
            }
            let e = &self.blockers[i];
            if e.blocker_id != *blocker_id {
                let ghost before = kept@;
                kept.push(
                    BlockerRelation { task_id: e.task_id.clone(), blocker_id: e.blocker_id.clone() },
                );
                assert(edges_view(kept@) =~= edges_view(before).push(pre.blockers[i as int]));
            }
            i += 1;
        }
        proof {
            assert(pre.blockers.take(i as int) =~= pre.blockers);
            crate::model::lemma_edges_filtered_wf(pre, p);
        }
        let count = self.blockers.len() - kept.len();
        self.blockers = kept;
        count
    }

    // ----- learnings -----

    /// Where the learning with this identifier is stored.
    fn find_learning(&self, id: &LearningId) -> (r: Option<usize>)
        ensures
            r is Some <==> self@.has_learning(id@),
            r matches Some(i) ==> i < self.learnings@.len() && self.learnings@[i as int].id@ == id@,
            r matches Some(i) ==> self@.learnings_ok() ==> self@.learning(id@)
                == self.learnings@[i as int]@,
    {
        let mut i: usize = 0;
        while i < self.learnings.len()
            invariant
                i <= self.learnings@.len(),
                forall|j: int| 0 <= j < i ==> self.learnings@[j].id@ != id@,
            decreases self.learnings@.len() - i,
        {
            if self.learnings[i].id == *id {
                proof {
                    assert(self@.learnings[i as int].id == id@);
                    if self@.learnings_ok() {
                        reveal(StoreView::learnings_ok);
                        let k = choose|k: int|
                            0 <= k < self@.learnings.len() && (#[trigger] self@.learnings[k]).id
                                == id@;
                        if k < i {
                            assert(self@.learnings[k].id != self@.learnings[i as int].id);
                        } else if i < k {
                            assert(self@.learnings[i as int].id != self@.learnings[k].id);
                        }
                    }
                }
                return Some(i);
            }
            i += 1;
        }
        proof {
            assert forall|j: int| 0 <= j < self@.learnings.len() implies (
            #[trigger] self@.learnings[j]).id != id@ by {
                assert(self.learnings@[j].id@ != id@);
            }
        }
        None
    }

    /// Where the learning of the given task, origin and content is stored.
    fn find_note(&self, task: &TaskId, origin: &Option<TaskId>, content: &str) -> (r: Option<
        usize,
    >)
        ensures
            r is Some <==> self@.has_note(task@, opt_id_view(*origin), content@),
            r matches Some(i) ==> i < self.learnings@.len(),
            r matches Some(i) ==> self@.learnings_ok() ==> self@.note(
                task@,
                opt_id_view(*origin),
                content@,
            ) == self.learnings@[i as int]@,
    {
        let ghost want = opt_id_view(*origin);
        let mut i: usize = 0;
        while i < self.learnings.len()
            invariant
                i <= self.learnings@.len(),
                want == opt_id_view(*origin),
                forall|j: int|
                    0 <= j < i ==> !((#[trigger] self@.learnings[j]).task_id == task@
                        && self@.learnings[j].source_task_id == want && self@.learnings[j].content
                        == content@),
            decreases self.learnings@.len() - i,
        {
            let l = &self.learnings[i];
            let same_origin = match (&l.source_task_id, origin) {
                (Some(a), Some(b)) => *a == *b,
                (None, None) => true,
                _ => false,
            };
            if l.task_id == *task && same_origin && crate::types::same_text(l.content.as_str(), content) {
                proof {
                    let here = self@.learnings[i as int];
                    assert(here.task_id == task@ && here.source_task_id == want && here.content
                        == content@);
                    if self@.learnings_ok() {
                        reveal(StoreView::learnings_ok);
                        let k = choose|k: int|
                            0 <= k < self@.learnings.len() && (#[trigger] self@.learnings[k]).task_id
                                == task@ && self@.learnings[k].source_task_id == want
                                && self@.learnings[k].content == content@;
                        if k < i {
                            assert(!((#[trigger] self@.learnings[k]).task_id == (
                            #[trigger] self@.learnings[i as int]).task_id));
                        } else if i < k {
                            assert(!((#[trigger] self@.learnings[i as int]).task_id == (
                            #[trigger] self@.learnings[k]).task_id));
                        }
                    }
                }
                return Some(i);
            }
            i += 1;
        }
        None
    }

    /// What `add_learning` answers and leaves behind, for the learning `l`
    /// that is to be added.
    pub open spec fn learning_added(
        pre: StoreView,
        post: StoreView,
        l: LearningView,
        r: Result<Learning, OsError>,
    ) -> bool {
        if !pre.contains(l.task_id) {
            r matches Err(OsError::TaskNotFound(t)) && t@ == l.task_id && post == pre
        } else if pre.has_note(l.task_id, l.source_task_id, l.content) {
            r matches Ok(found) && found@ == pre.note(l.task_id, l.source_task_id, l.content)
                && post == pre
        } else if pre.has_learning(l.id) {
            r matches Err(OsError::Database(_)) && post == pre
        } else {
            r matches Ok(added) && added@ == l && post == pre.with_learning(l)
        }
    }

    /// Attaches a learning to a task under the identifier `id`. Where the
    /// task holds a learning of this origin and content already, that one
    /// is handed back and nothing changes.
    pub fn add_learning(
        &mut self,
        task_id: &TaskId,
        content: &str,
        source_task_id: Option<&TaskId>,
        id: LearningId,
        now: Timestamp,
    ) -> (r: Result<Learning, OsError>)
        requires
            old(self)@.wf(),
        ensures
            final(self)@.wf(),
            Self::learning_added(
                old(self)@,
                final(self)@,
                LearningView {
                    id: id@,
                    task_id: task_id@,
                    content: content@,
                    source_task_id: match source_task_id {
                        Some(s) => Some(s@),
                        None => None,
                    },
                    created_at: now,
                },
                r,
            ),
    {
        if !self.task_exists(task_id) {
            return Err(OsError::TaskNotFound(task_id.clone()));
        }
        let origin = match source_task_id {
            Some(s) => Some(s.clone()),
            None => None,
        };
        if let Some(i) = self.find_note(task_id, &origin, content) {
            return Ok(self.learnings[i].copy());
        }
        if self.find_learning(&id).is_some() {
            return Err(
                OsError::Database(String::from_str("UNIQUE constraint failed: learnings.id")),
            );
        }
        let learning = Learning {
            id: id,
            task_id: task_id.clone(),
            content: String::from_str(content),
            source_task_id: origin,
            created_at: now,
        };
        let out = learning.copy();
        proof {
            crate::model::lemma_with_learning_wf(self@, learning@);
        }
        let ghost pre = self@;
        let ghost l = learning@;
        self.learnings.push(learning);
        assert(self@.learnings =~= pre.learnings.push(l));
        Ok(out)
    }

    /// The learning with this identifier.
    pub fn get_learning(&self, id: &LearningId) -> (r: Option<Learning>)
        requires
            self@.wf(),
        ensures
            r is Some <==> self@.has_learning(id@),
            r matches Some(l) ==> l@ == self@.learning(id@),
    {
        match self.find_learning(id) {
            Some(i) => Some(self.learnings[i].copy()),
            None => None,
        }
    }

    /// The learnings attached to a task, oldest first.
    pub fn list_learnings(&self, task_id: &TaskId) -> (r: Vec<Learning>)
        ensures
            learnings_view(r@) == self@.learnings_of(task_id@),
    {
        let ghost p = |l: LearningView| l.task_id == task_id@;
        let mut out: Vec<Learning> = Vec::new();
        let mut i: usize = 0;
        proof {
            assert(self@.learnings.take(0).filter(p) =~= Seq::empty());
            assert(learnings_view(out@) =~= Seq::empty());
        }
        while i < self.learnings.len()
            invariant
                i <= self.learnings@.len(),
                p == |l: LearningView| l.task_id == task_id@,
                learnings_view(out@) == self@.learnings.take(i as int).filter(p),
            decreases self.learnings@.len() - i,
        {
            proof {
                lemma_filter_step(self@.learnings, p, i as int);
            }
            if self.learnings[i].task_id == *task_id {
                let ghost before = out@;
                out.push(self.learnings[i].copy());
                assert(learnings_view(out@) =~= learnings_view(before).push(
                    self@.learnings[i as int],
                ));
            }
            i += 1;
        }
        proof {
            assert(self@.learnings.take(i as int) =~= self@.learnings);
        }
        sort_learnings(out)
    }

    /// Removes the learning with this identifier, if it is stored.
    pub fn delete_learning(&mut self, id: &LearningId)
        requires
            old(self)@.wf(),
        ensures
            final(self)@.wf(),
            final(self)@ == old(self)@.without_learning(id@),
    {
        let ghost p = |l: LearningView| l.id != id@;
        let ghost pre = self@;
        let mut kept: Vec<Learning> = Vec::new();
        let mut i: usize = 0;
        proof {
            assert(pre.learnings.take(0).filter(p) =~= Seq::empty());
            assert(learnings_view(kept@) =~= Seq::empty());
        }
        while i < self.learnings.len()
            invariant
                i <= self.learnings@.len(),
                self@ == pre,
                p == |l: LearningView| l.id != id@,
                learnings_view(kept@) == pre.learnings.take(i as int).filter(p),
            decreases self.learnings@.len() - i,
        {
            proof {
                lemma_filter_step(pre.learnings, p, i as int);
            }
            if self.learnings[i].id != *id {
                let ghost before = kept@;
                kept.push(self.learnings[i].copy());
                assert(learnings_view(kept@) =~= learnings_view(before).push(
                    pre.learnings[i as int],
                ));
            }
            i += 1;
        }
        proof {
            assert(pre.learnings.take(i as int) =~= pre.learnings);
            crate::model::lemma_learnings_filtered_wf(pre, p);
        }
        self.learnings = kept;
    }

    /// Whether none of `ids` is taken by a stored learning and no two of
    /// them are the same.
    pub fn learning_ids_are_fresh(&self, ids: &Vec<LearningId>) -> (r: bool)
        ensures
            r == self@.fresh_learning_ids(lids_view(ids@)),
    {
        let ghost all = lids_view(ids@);
        let mut i: usize = 0;
        while i < ids.len()
            invariant
                i <= ids@.len(),
                all == lids_view(ids@),
                forall|k: int| 0 <= k < i ==> !self@.has_learning(#[trigger] all[k]),
                forall|k: int, l: int| 0 <= k < l < i ==> all[k] != all[l],
            decreases ids@.len() - i,
        {
            if self.find_learning(&ids[i]).is_some() {
                assert(self@.has_learning(all[i as int]));
                return false;
            }
            let mut j: usize = 0;
            while j < i
                invariant
                    j <= i,
                    i < ids@.len(),
                    all == lids_view(ids@),
                    forall|k: int| 0 <= k < j ==> all[k] != all[i as int],
                decreases i - j,
            {
                if ids[j] == ids[i] {
                    assert(all[j as int] == all[i as int]);
                    return false;
                }
                j += 1;
            }
            i += 1;
        }
        true
    }

    /// What `bubble_learnings` answers and leaves behind.
    pub open spec fn handed_up(
        pre: StoreView,
        post: StoreView,
        from: Seq<char>,
        to: Seq<char>,
        ids: Seq<Seq<char>>,
        now: Timestamp,
        r: Result<(), OsError>,
    ) -> bool {
        if !pre.contains(to) {
            r matches Err(OsError::TaskNotFound(t)) && t@ == to && post == pre
        } else if ids.len() < pre.learnings_of(from).len() || !pre.fresh_learning_ids(ids) {
            r matches Err(OsError::Database(_)) && post == pre
        } else {
            r is Ok && post == pre.bubbled(from, to, ids, now)
        }
    }

    /// Copies every learning of `from` to `to`, oldest first, keeping the
    /// origin; a learning that `to` holds already is not copied. The copy
    /// of the k-th learning gets the k-th of `ids`, which must be as many
    /// as the learnings of `from`, not taken, and all different.
    pub fn bubble_learnings(
        &mut self,
        from: &TaskId,
        to: &TaskId,
        ids: &Vec<LearningId>,
        now: Timestamp,
    ) -> (r: Result<(), OsError>)
        requires
            old(self)@.wf(),
        ensures
            final(self)@.wf(),
            Self::handed_up(old(self)@, final(self)@, from@, to@, lids_view(ids@), now, r),
    {
        if !self.task_exists(to) {
            return Err(OsError::TaskNotFound(to.clone()));
        }
        let items = self.list_learnings(from);
        if ids.len() < items.len() || !self.learning_ids_are_fresh(ids) {
            return Err(OsError::Database(String::from_str("no fresh identifier for a learning")));
        }
        let ghost pre = self@;
        let ghost all = learnings_view(items@);
        let ghost supply = lids_view(ids@);
        let mut k: usize = 0;
        proof {
            assert(all.take(0) =~= Seq::empty());
        }
        while k < items.len()
            invariant
                k <= items@.len(),
                items@.len() <= ids@.len(),
                all == learnings_view(items@),
                supply == lids_view(ids@),
                pre.wf(),
                pre.fresh_learning_ids(supply),
                pre.contains(to@),
                self@ == pre.with_copies(all.take(k as int), from@, to@, supply, now),
            decreases items@.len() - k,
        {
            let l = &items[k];
            let origin = match &l.source_task_id {
                Some(s) => s.clone(),
                None => from.clone(),
            };
            let ghost copy = StoreView::handed_up(all[k as int], from@, to@, supply[k as int], now);
            proof {
                assert(all.take(k + 1).drop_last() =~= all.take(k as int));
                assert(all.take(k + 1)[k as int] == all[k as int]);
                crate::model::lemma_with_copies_wf(
                    pre,
                    all.take(k as int),
                    from@,
                    to@,
                    supply,
                    now,
                );
                assert(self@.contains(to@));
                assert(copy.source_task_id == Some(origin@));
            }
            let origin = Some(origin);
            if self.find_note(to, &origin, l.content.as_str()).is_none() {
                let ghost before = self@;
                let learning = Learning {
                    id: ids[k].clone(),
                    task_id: to.clone(),
                    content: l.content.clone(),
                    source_task_id: origin,
                    created_at: now,
                };
                assert(learning@ == copy);
                self.learnings.push(learning);
                assert(self@.learnings =~= before.learnings.push(copy));
            }
            k += 1;
        }
        proof {
            assert(all.take(k as int) =~= all);
            crate::model::lemma_with_copies_wf(pre, all, from@, to@, supply, now);
        }
        Ok(())
    }

    // ----- changes to the forest -----

    /// How many levels lie below a task.
    pub fn subtree_height(&self, id: &TaskId) -> (r: i32)
        requires
            self@.wf(),
        ensures
            r == self@.subtree_height(id@),
    {
        let mut has_child = false;
        let mut i: usize = 0;
        while i < self.tasks.len()
            invariant
                i <= self.tasks@.len(),
                self@.wf(),
                forall|j: int|
                    0 <= j < i ==> !((#[trigger] self@.tasks[j]).parent_id is Some
                        && self@.parent_of(self@.tasks[j].parent_id->0) == Some(id@)),
                has_child <==> exists|j: int|
                    0 <= j < i && (#[trigger] self@.tasks[j]).parent_id == Some(id@),
            decreases self.tasks@.len() - i,
        {
            if let Some(p) = &self.tasks[i].parent_id {
                if *p == *id {
                    has_child = true;
                    assert(self@.tasks[i as int].parent_id == Some(id@));
                }
                let above = self.parent_id_of(p);
                let is_grandchild = match &above {
                    Some(g) => *g == *id,
                    None => false,
                };
                if is_grandchild {
                    assert(self@.tasks[i as int].parent_id is Some && self@.parent_of(
                        self@.tasks[i as int].parent_id->0,
                    ) == Some(id@));
                    return 2;
                }
            }
            i += 1;
        }
        if has_child {
            1
        } else {
            0
        }
    }

    /// What `update_task` answers and leaves behind.
    pub open spec fn updated(
        pre: StoreView,
        post: Store,
        id: Seq<char>,
        input: UpdateTaskInput,
        now: Timestamp,
        r: Result<Task, OsError>,
    ) -> bool {
        let parent = input@.parent_id;
        if !pre.contains(id) {
            r matches Err(OsError::TaskNotFound(t)) && t@ == id && post@ == pre
        } else if parent is Some && !pre.contains(parent->0) {
            r matches Err(OsError::ParentNotFound(p)) && p@ == parent->0 && post@ == pre
        } else if parent is Some && pre.closes_parent_cycle(id, parent->0) {
            r matches Err(OsError::ParentCycle) && post@ == pre
        } else if parent is Some && !pre.fits_under(id, parent->0) {
            r matches Err(OsError::MaxDepthExceeded) && post@ == pre
        } else {
            &&& r matches Ok(t)
            &&& t@ == pre.task(id).patched(input@, now)
            &&& post.is_hydrated(t)
            &&& post@ == pre.with_task(t@)
        }
    }

    /// Writes the fields of `input` that are set to the task `id`. Refuses
    /// a new parent that is not stored, that is the task or lies below it,
    /// or under which the task does not fit with what lies below it.
    pub fn update_task(&mut self, id: &TaskId, input: &UpdateTaskInput, now: Timestamp) -> (r:
        Result<Task, OsError>)
        requires
            old(self)@.wf(),
        ensures
            final(self)@.wf(),
            Self::updated(old(self)@, *final(self), id@, *input, now, r),
    {
        let i = match self.find(id) {
            Some(i) => i,
            None => {
                return Err(OsError::TaskNotFound(id.clone()));
            },
        };
        if let Some(parent) = &input.parent_id {
            if !self.task_exists(parent) {
                return Err(OsError::ParentNotFound(parent.clone()));
            }
            if *parent == *id || self.is_ancestor(id, parent) {
                return Err(OsError::ParentCycle);
            }
            let depth = self.get_task_depth(parent);
            let height = self.subtree_height(id);
            if depth + 1 + height > 2 {
                return Err(OsError::MaxDepthExceeded);
            }
        }
        let mut t = self.tasks[i].stored_copy();
        if let Some(d) = &input.description {
            t.description = d.clone();
        }
        if let Some(c) = &input.context {
            t.context = c.clone();
        }
        if let Some(p) = input.priority {
            t.priority = p;
        }
        if let Some(parent) = &input.parent_id {
            t.parent_id = Some(parent.clone());
        }
        t.updated_at = now;
        assert(t@ == self@.task(id@).patched(input@, now));
        proof {
            if input.parent_id is Some {
                crate::model::lemma_reparent_wf(self@, i as int, t@, input@.parent_id->0);
            } else {
                crate::model::lemma_with_task_at(self@, i as int, t@);
            }
        }
        let ghost pre = self@;
        self.tasks.set(i, t);
        assert(self@.tasks =~= pre.tasks.update(i as int, pre.task(id@).patched(input@, now)));
        Ok(self.task_at(i))
    }

    /// Whether `x` is neither `id` nor below it.
    fn is_outside_subtree(&self, id: &TaskId, x: &TaskId) -> (r: bool)
        requires
            self@.wf(),
        ensures
            r == self@.outside_subtree(id@, x@),
    {
        *x != *id && !self.is_ancestor(id, x)
    }

    /// Removes a task with the tasks below it, their learnings and every
    /// blocker edge that touches one of them.
    pub fn delete_task(&mut self, id: &TaskId)
        requires
            old(self)@.wf(),
        ensures
            final(self)@.wf(),
            final(self)@ == old(self)@.without_subtree(id@),
    {
        let ghost pre = self@;
        let ghost tp = |t: TaskView| pre.outside_subtree(id@, t.id);
        let ghost bp = |e: BlockerView|
            pre.outside_subtree(id@, e.task_id) && pre.outside_subtree(id@, e.blocker_id);
        let ghost lp = |l: LearningView| pre.outside_subtree(id@, l.task_id);
        let mut tasks: Vec<Task> = Vec::new();
        let mut i: usize = 0;
        proof {
            assert(pre.tasks.take(0).filter(tp) =~= Seq::empty());
            assert(tasks_view(tasks@) =~= Seq::empty());
        }
        while i < self.tasks.len()
            invariant
                i <= self.tasks@.len(),
                self@ == pre,
                pre.wf(),
                tp == |t: TaskView| pre.outside_subtree(id@, t.id),
                tasks_view(tasks@) == pre.tasks.take(i as int).filter(tp),
            decreases self.tasks@.len() - i,
        {
            proof {
                lemma_filter_step(pre.tasks, tp, i as int);
            }
            if self.is_outside_subtree(id, &self.tasks[i].id) {
                let ghost before = tasks@;
                tasks.push(self.tasks[i].stored_copy());
                assert(tasks_view(tasks@) =~= tasks_view(before).push(pre.tasks[i as int]));
            }
            i += 1;
        }
        let mut blockers: Vec<BlockerRelation> = Vec::new();
        let mut j: usize = 0;
        proof {
            assert(pre.tasks.take(i as int) =~= pre.tasks);
            assert(pre.blockers.take(0).filter(bp) =~= Seq::empty());
            assert(edges_view(blockers@) =~= Seq::empty());
        }
        while j < self.blockers.len()
            invariant
                j <= self.blockers@.len(),
                self@ == pre,
                pre.wf(),
                bp == |e: BlockerView|
                    pre.outside_subtree(id@, e.task_id) && pre.outside_subtree(id@, e.blocker_id),
                edges_view(blockers@) == pre.blockers.take(j as int).filter(bp),
            decreases self.blockers@.len() - j,
        {
            proof {
                lemma_filter_step(pre.blockers, bp, j as int);
            }
            let e = &self.blockers[j];
            if self.is_outside_subtree(id, &e.task_id) && self.is_outside_subtree(
                id,
                &e.blocker_id,
            ) {
                let ghost before = blockers@;
                blockers.push(
                    BlockerRelation { task_id: e.task_id.clone(), blocker_id: e.blocker_id.clone() },
                );
                assert(edges_view(blockers@) =~= edges_view(before).push(pre.blockers[j as int]));
            }
            j += 1;
        }
        let mut learnings: Vec<Learning> = Vec::new();
        let mut k: usize = 0;
        proof {
            assert(pre.blockers.take(j as int) =~= pre.blockers);
            assert(pre.learnings.take(0).filter(lp) =~= Seq::empty());
            assert(learnings_view(learnings@) =~= Seq::empty());
        }
        while k < self.learnings.len()
            invariant
                k <= self.learnings@.len(),
                self@ == pre,
                pre.wf(),
                lp == |l: LearningView| pre.outside_subtree(id@, l.task_id),
                learnings_view(learnings@) == pre.learnings.take(k as int).filter(lp),
            decreases self.learnings@.len() - k,
        {
            proof {
                lemma_filter_step(pre.learnings, lp, k as int);
            }
            if self.is_outside_subtree(id, &self.learnings[k].task_id) {
                let ghost before = learnings@;
                learnings.push(self.learnings[k].copy());
                assert(learnings_view(learnings@) =~= learnings_view(before).push(
                    pre.learnings[k as int],
                ));
            }
            k += 1;
        }
        proof {
            assert(pre.learnings.take(k as int) =~= pre.learnings);
            crate::model::lemma_without_subtree_wf(pre, id@);
        }
        self.tasks = tasks;
        self.blockers = blockers;
        self.learnings = learnings;
    }

    // ----- listings -----

    /// Whether the task is not completed and each of its blockers is
    /// stored and completed.
    fn has_blockers_completed(&self, i: usize) -> (r: bool)
        requires
            self@.wf(),
            i < self.tasks@.len(),
        ensures
            r == self@.blockers_completed(self@.tasks[i as int]),
    {
        if self.tasks[i].completed {
            return false;
        }
        let mut j: usize = 0;
        while j < self.blockers.len()
            invariant
                j <= self.blockers@.len(),
                self@.wf(),
                i < self.tasks@.len(),
                forall|k: int|
                    0 <= k < j && (#[trigger] self@.blockers[k]).task_id == self@.tasks[i as int].id
                        ==> self@.contains(self@.blockers[k].blocker_id) && self@.task(
                        self@.blockers[k].blocker_id,
                    ).completed,
            decreases self.blockers@.len() - j,
        {
            if self.blockers[j].task_id == self.tasks[i].id && !self.is_task_completed(
                &self.blockers[j].blocker_id,
            ) {
                assert(self@.blockers[j as int].task_id == self@.tasks[i as int].id);
                return false;
            }
            j += 1;
        }
        true
    }

    /// Whether the filter lets the task at `i` through.
    fn is_selected(&self, filter: &ListTasksFilter, i: usize) -> (r: bool)
        requires
            self@.wf(),
            i < self.tasks@.len(),
        ensures
            r == self@.selects(filter@, self@.tasks[i as int]),
    {
        let t = &self.tasks[i];
        if let Some(parent) = &filter.parent_id {
            let same = match &t.parent_id {
                Some(p) => *p == *parent,
                None => false,
            };
            if !same {
                return false;
            }
        }
        if let Some(c) = filter.completed {
            if t.completed != c {
                return false;
            }
        }
        if let Some(d) = filter.depth {
            if self.get_task_depth(&t.id) != d {
                return false;
            }
        }
        if let Some(a) = filter.archived {
            if t.archived != a {
                return false;
            }
        }
        if filter.ready && !self.has_blockers_completed(i) {
            return false;
        }
        true
    }

    /// The tasks that the filter lets through, in traversal order, each
    /// with its blocker edges.
    pub fn list_tasks(&self, filter: &ListTasksFilter) -> (r: Vec<Task>)
        requires
            self@.wf(),
        ensures
            tasks_view(r@) == self@.listed(filter@),
            forall|k: int| 0 <= k < r@.len() ==> self.is_hydrated(#[trigger] r@[k]),
    {
        let ghost view = self@;
        let ghost p = |t: TaskView| view.selects(filter@, t);
        let mut out: Vec<Task> = Vec::new();
        let mut i: usize = 0;
        proof {
            assert(self@.tasks.take(0).filter(p) =~= Seq::empty());
            assert(tasks_view(out@) =~= Seq::empty());
        }
        while i < self.tasks.len()
            invariant
                i <= self.tasks@.len(),
                self@.wf(),
                view == self@,
                p == |t: TaskView| view.selects(filter@, t),
                tasks_view(out@) == self@.tasks.take(i as int).filter(p),
                forall|k: int| 0 <= k < out@.len() ==> self.is_hydrated(#[trigger] out@[k]),
            decreases self.tasks@.len() - i,
        {
            proof {
                lemma_filter_step(self@.tasks, p, i as int);
            }
            if self.is_selected(filter, i) {
                let ghost before = out@;
                let t = self.task_at(i);
                out.push(t);
                assert(tasks_view(out@) =~= tasks_view(before).push(self@.tasks[i as int]));
            }
            i += 1;
        }
        proof {
            assert(self@.tasks.take(i as int) =~= self@.tasks);
        }
        sort_tasks(out)
    }

    /// The bookmarks of a task and of the tasks below it, in stored order.
    pub fn get_all_bookmarks(&self, id: &TaskId) -> (r: Vec<String>)
        requires
            self@.wf(),
        ensures
            strs_view(r@) == self@.bookmarks_under(id@),
    {
        let ghost view = self@;
        let ghost p = |t: TaskView|
            (t.id == id@ || view.is_ancestor(id@, t.id)) && t.bookmark is Some;
        let ghost f = |t: TaskView| t.bookmark->0;
        let mut out: Vec<String> = Vec::new();
        let mut i: usize = 0;
        proof {
            assert(self@.tasks.take(0).filter(p) =~= Seq::empty());
            assert(strs_view(out@) =~= Seq::<TaskView>::empty().map_values(f));
        }
        while i < self.tasks.len()
            invariant
                i <= self.tasks@.len(),
                self@.wf(),
                view == self@,
                p == |t: TaskView|
                    (t.id == id@ || view.is_ancestor(id@, t.id)) && t.bookmark is Some,
                f == |t: TaskView| t.bookmark->0,
                strs_view(out@) == self@.tasks.take(i as int).filter(p).map_values(f),
            decreases self.tasks@.len() - i,
        {
            proof {
                lemma_filter_step(self@.tasks, p, i as int);
            }
            let t = &self.tasks[i];
            if let Some(b) = &t.bookmark {
                if t.id == *id || self.is_ancestor(id, &t.id) {
                    let ghost before = out@;
                    out.push(b.clone());
                    proof {
                        let kept = self@.tasks.take(i as int).filter(p);
                        assert(strs_view(out@) =~= strs_view(before).push(b@));
                        assert(kept.push(self@.tasks[i as int]).map_values(f) =~= kept.map_values(
                            f,
                        ).push(b@));
                    }
                }
            }
            i += 1;
        }
        proof {
            assert(self@.tasks.take(i as int) =~= self@.tasks);
        }
        out
    }

    /// A copy of the store.
    pub fn copy(&self) -> (r: Store)
        ensures
            r@ == self@,
    {
        let mut tasks: Vec<Task> = Vec::new();
        let mut i: usize = 0;
        while i < self.tasks.len()
            invariant
                i <= self.tasks@.len(),
                tasks@.len() == i,
                forall|k: int| 0 <= k < i ==> tasks@[k]@ == self.tasks@[k]@,
            decreases self.tasks@.len() - i,
        {
            tasks.push(self.tasks[i].stored_copy());
            i += 1;
        }
        let mut blockers: Vec<BlockerRelation> = Vec::new();
        let mut j: usize = 0;
        while j < self.blockers.len()
            invariant
                j <= self.blockers@.len(),
                blockers@.len() == j,
                forall|k: int| 0 <= k < j ==> blockers@[k]@ == self.blockers@[k]@,
            decreases self.blockers@.len() - j,
        {
            let e = &self.blockers[j];
            blockers.push(
                BlockerRelation { task_id: e.task_id.clone(), blocker_id: e.blocker_id.clone() },
            );
            j += 1;
        }
        let mut learnings: Vec<Learning> = Vec::new();
        let mut k: usize = 0;
        while k < self.learnings.len()
            invariant
                k <= self.learnings@.len(),
                learnings@.len() == k,
                forall|n: int| 0 <= n < k ==> learnings@[n]@ == self.learnings@[n]@,
            decreases self.learnings@.len() - k,
        {
            learnings.push(self.learnings[k].copy());
            k += 1;
        }
        let r = Store { tasks, blockers, learnings };
        assert(r@.tasks =~= self@.tasks);
        assert(r@.blockers =~= self@.blockers);
        assert(r@.learnings =~= self@.learnings);
        r
    }

    // ----- blocking -----

    /// Whether every blocker of the task itself is satisfied.
    pub fn own_unblocked(&self, id: &TaskId) -> (r: bool)
        requires
            self@.wf(),
        ensures
            r == self@.own_unblocked(id@),
    {
        let mut i: usize = 0;
        while i < self.blockers.len()
            invariant
                i <= self.blockers@.len(),
                self@.wf(),
                forall|k: int|
                    0 <= k < i && (#[trigger] self@.blockers[k]).task_id == id@
                        ==> self@.satisfies(self@.blockers[k].blocker_id),
            decreases self.blockers@.len() - i,
        {
            if self.blockers[i].task_id == *id && !self.is_task_satisfies_blocker(
                &self.blockers[i].blocker_id,
            ) {
                assert(self@.blockers[i as int].task_id == id@);
                return false;
            }
            i += 1;
        }
        true
    }

    /// The blockers of the task that are not satisfied, in stored order.
    pub fn unsatisfied_blockers(&self, id: &TaskId) -> (r: Vec<TaskId>)
        requires
            self@.wf(),
        ensures
            ids_view(r@) == self@.unsatisfied_blockers(id@),
    {
        let ghost view = self@;
        let ghost p = |b: Seq<char>| !view.satisfies(b);
        let all = self.get_blockers(id);
        let ghost ids = ids_view(all@);
        let mut out: Vec<TaskId> = Vec::new();
        let mut i: usize = 0;
        proof {
            assert(ids.take(0).filter(p) =~= Seq::empty());
            assert(ids_view(out@) =~= Seq::empty());
        }
        while i < all.len()
            invariant
                i <= all@.len(),
                self@.wf(),
                view == self@,
                ids == ids_view(all@),
                p == |b: Seq<char>| !view.satisfies(b),
                ids_view(out@) == ids.take(i as int).filter(p),
            decreases all@.len() - i,
        {
            proof {
                lemma_filter_step(ids, p, i as int);
                assert(ids[i as int] == all@[i as int]@);
            }
            if !self.is_task_satisfies_blocker(&all[i]) {
                let ghost before = out@;
                out.push(all[i].clone());
                assert(ids_view(out@) =~= ids_view(before).push(ids[i as int]));
            }
            i += 1;
        }
        proof {
            assert(ids.take(i as int) =~= ids);
        }
        out
    }

    /// Whether some ancestor of the task has a blocker that is not
    /// satisfied.
    pub fn ancestor_blocked(&self, id: &TaskId) -> (r: bool)
        requires
            self@.wf(),
        ensures
            r == self@.ancestor_blocked(id@),
    {
        let chain = self.ancestor_ids(id);
        let mut i: usize = 0;
        while i < chain.len()
            invariant
                i <= chain@.len(),
                self@.wf(),
                ids_view(chain@) == self@.ancestors(id@),
                forall|k: int| 0 <= k < i ==> self@.own_unblocked(#[trigger] self@.ancestors(id@)[k]),
            decreases chain@.len() - i,
        {
            assert(ids_view(chain@)[i as int] == chain@[i as int]@);
            if !self.own_unblocked(&chain[i]) {
                return true;
            }
            i += 1;
        }
        assert(ids_view(chain@).len() == chain@.len());
        false
    }

    /// Whether the task or one of its ancestors has a blocker that is not
    /// satisfied.
    pub fn effectively_blocked(&self, id: &TaskId) -> (r: bool)
        requires
            self@.wf(),
        ensures
            r == self@.effectively_blocked(id@),
    {
        !self.own_unblocked(id) || self.ancestor_blocked(id)
    }

    /// Whether every task below `id` is completed, cancelled or archived.
    pub fn descendants_finished(&self, id: &TaskId) -> (r: bool)
        requires
            self@.wf(),
        ensures
            r == self@.descendants_finished(id@),
    {
        let mut i: usize = 0;
        while i < self.tasks.len()
            invariant
                i <= self.tasks@.len(),
                self@.wf(),
                forall|k: int|
                    0 <= k < i && self@.is_ancestor(id@, (#[trigger] self@.tasks[k]).id)
                        ==> !self@.tasks[k].is_active_for_work(),
            decreases self.tasks@.len() - i,
        {
            if self.is_ancestor(id, &self.tasks[i].id) && self.tasks[i].is_active_for_work() {
                assert(self@.is_ancestor(id@, self@.tasks[i as int].id)
                    && self@.tasks[i as int].is_active_for_work());
                return false;
            }
            i += 1;
        }
        true
    }

    /// Archives the task `id` and every task below it at `now`, but for
    /// those that were archived before.
    pub fn archive_subtree(&mut self, id: &TaskId, now: Timestamp)
        requires
            old(self)@.wf(),
        ensures
            final(self)@.wf(),
            final(self)@ == old(self)@.with_subtree_archived(id@, now),
            final(self)@.same_forest(old(self)@),
    {
        let ghost pre = self@;
        let ghost f = |t: TaskView|
            if (t.id == id@ || pre.is_ancestor(id@, t.id)) && !t.archived {
                t.archived_now(now)
            } else {
                t
            };
        let mut marks: Vec<bool> = Vec::new();
        let mut n: usize = 0;
        while n < self.tasks.len()
            invariant
                n <= self.tasks@.len(),
                self@ == pre,
                pre.wf(),
                marks@.len() == n,
                forall|k: int|
                    0 <= k < n ==> marks@[k] == ((pre.tasks[k].id == id@ || pre.is_ancestor(
                        id@,
                        pre.tasks[k].id,
                    )) && !pre.tasks[k].archived),
            decreases self.tasks@.len() - n,
        {
            let below = self.tasks[n].id == *id || self.is_ancestor(id, &self.tasks[n].id);
            marks.push(below && !self.tasks[n].archived);
            n += 1;
        }
        let mut i: usize = 0;
        while i < self.tasks.len()
            invariant
                i <= self.tasks@.len(),
                self.tasks@.len() == pre.tasks.len(),
                marks@.len() == pre.tasks.len(),
                self@.blockers == pre.blockers,
                self@.learnings == pre.learnings,
                forall|k: int|
                    0 <= k < pre.tasks.len() ==> marks@[k] == ((pre.tasks[k].id == id@
                        || pre.is_ancestor(id@, pre.tasks[k].id)) && !pre.tasks[k].archived),
                forall|k: int|
                    0 <= k < i ==> self@.tasks[k] == if marks@[k] {
                        pre.tasks[k].archived_now(now)
                    } else {
                        pre.tasks[k]
                    },
                forall|k: int| i <= k < pre.tasks.len() ==> self@.tasks[k] == pre.tasks[k],
            decreases self.tasks@.len() - i,
        {
            if marks[i] {
                let mut t = self.tasks[i].stored_copy();
                t.archived = true;
                t.archived_at = Some(now);
                t.updated_at = now;
                let ghost before = self@;
                let ghost record = t@;
                self.tasks.set(i, t);
                assert(self@.tasks =~= before.tasks.update(i as int, record));
            }
            i += 1;
        }
        proof {
            assert(self@.tasks =~= pre.tasks.map_values(f));
            assert(pre.same_forest(self@));
            crate::model::lemma_same_forest_wf(pre, self@);
        }
    }

    /// What `add_notes` answers and leaves behind.
    pub open spec fn noted(
        pre: StoreView,
        post: StoreView,
        task: Seq<char>,
        contents: Seq<Seq<char>>,
        ids: Seq<Seq<char>>,
        now: Timestamp,
        r: Result<(), OsError>,
    ) -> bool {
        if !pre.contains(task) {
            r matches Err(OsError::TaskNotFound(t)) && t@ == task && post == pre
        } else if ids.len() < contents.len() || !pre.fresh_learning_ids(ids) {
            r matches Err(OsError::Database(_)) && post == pre
        } else {
            r is Ok && post == pre.with_notes(task, contents, ids, now)
        }
    }

    /// Attaches each of `contents` to the task as a learning of its own,
    /// the k-th under the k-th of `ids`, which must be at least as many
    /// as the contents, not taken, and all different. What the task has
    /// noted before is not noted again.
    pub fn add_notes(
        &mut self,
        task: &TaskId,
        contents: &Vec<String>,
        ids: &Vec<LearningId>,
        now: Timestamp,
    ) -> (r: Result<(), OsError>)
        requires
            old(self)@.wf(),
        ensures
            final(self)@.wf(),
            Self::noted(
                old(self)@,
                final(self)@,
                task@,
                strs_view(contents@),
                lids_view(ids@),
                now,
                r,
            ),
    {
        if !self.task_exists(task) {
            return Err(OsError::TaskNotFound(task.clone()));
        }
        if ids.len() < contents.len() || !self.learning_ids_are_fresh(ids) {
            return Err(OsError::Database(String::from_str("no fresh identifier for a learning")));
        }
        let ghost pre = self@;
        let ghost all = strs_view(contents@);
        let ghost supply = lids_view(ids@);
        let origin = Some(task.clone());
        let mut k: usize = 0;
        proof {
            assert(all.take(0) =~= Seq::empty());
        }
        while k < contents.len()
            invariant
                k <= contents@.len(),
                contents@.len() <= ids@.len(),
                all == strs_view(contents@),
                supply == lids_view(ids@),
                pre.wf(),
                pre.fresh_learning_ids(supply),
                pre.contains(task@),
                opt_id_view(origin) == Some(task@),
                self@ == pre.with_notes(task@, all.take(k as int), supply, now),
            decreases contents@.len() - k,
        {
            let ghost note = StoreView::own_note(task@, all[k as int], supply[k as int], now);
            proof {
                assert(all.take(k + 1).drop_last() =~= all.take(k as int));
                assert(all.take(k + 1)[k as int] == all[k as int]);
                crate::model::lemma_with_notes_wf(pre, task@, all.take(k as int), supply, now);
                assert(self@.contains(task@));
            }
            if self.find_note(task, &origin, contents[k].as_str()).is_none() {
                let ghost before = self@;
                let learning = Learning {
                    id: ids[k].clone(),
                    task_id: task.clone(),
                    content: contents[k].clone(),
                    source_task_id: Some(task.clone()),
                    created_at: now,
                };
                assert(learning@ == note);
                self.learnings.push(learning);
                assert(self@.learnings =~= before.learnings.push(note));
            }
            k += 1;
        }
        proof {
            assert(all.take(k as int) =~= all);
            crate::model::lemma_with_notes_wf(pre, task@, all, supply, now);
        }
        Ok(())
    }

    // ----- whole stores -----

    /// Whether no two of the stored tasks share an identifier.
    #[verifier::loop_isolation(false)]
    fn has_unique_ids(&self) -> (r: bool)
        ensures
            r == self@.ids_unique(),
    {
        let mut j: usize = 0;
        while j < self.tasks.len()
            invariant
                j <= self.tasks@.len(),
                forall|a: int, b: int|
                    0 <= a < b < j ==> (#[trigger] self@.tasks[a]).id != (
                    #[trigger] self@.tasks[b]).id,
            decreases self.tasks@.len() - j,
        {
            let mut i: usize = 0;
            while i < j
                invariant
                    i <= j,
                    j < self.tasks@.len(),
                    forall|a: int| 0 <= a < i ==> (#[trigger] self@.tasks[a]).id != self@.tasks[j as int].id,
                decreases j - i,
            {
                if self.tasks[i].id == self.tasks[j].id {
                    assert(self@.tasks[i as int].id == self@.tasks[j as int].id);
                    return false;
                }
                i += 1;
            }
            j += 1;
        }
        true
    }

    /// Whether every parent is stored and no task lies deeper than a
    /// subtask.
    #[verifier::loop_isolation(false)]
    fn has_bounded_forest(&self) -> (r: bool)
        requires
            self@.ids_unique(),
        ensures
            r == (self@.parents_exist() && self@.depth_bounded()),
    {
        proof {
            reveal(StoreView::parents_exist);
            reveal(StoreView::depth_bounded);
        }
        let mut i: usize = 0;
        while i < self.tasks.len()
            invariant
                i <= self.tasks@.len(),
                self@.ids_unique(),
                forall|k: int|
                    0 <= k < i ==> self@.depth((#[trigger] self@.tasks[k]).id)
                        <= crate::model::max_depth(),
                forall|k: int|
                    0 <= k < i && (#[trigger] self@.tasks[k]).parent_id is Some
                        ==> self@.contains(self@.tasks[k].parent_id->0),
            decreases self.tasks@.len() - i,
        {
            if let Some(parent) = &self.tasks[i].parent_id {
                if !self.task_exists(parent) {
                    assert(self@.tasks[i as int].parent_id is Some);
                    return false;
                }
            }
            if self.get_task_depth(&self.tasks[i].id) > 2 {
                return false;
            }
            i += 1;
        }
        true
    }

    /// Whether the blocker edges are well formed.
    #[verifier::loop_isolation(false)]
    fn has_sound_blockers(&self) -> (r: bool)
        ensures
            r == self@.blockers_ok(),
    {
        proof {
            reveal(StoreView::blockers_ok);
        }
        let mut j: usize = 0;
        while j < self.blockers.len()
            invariant
                j <= self.blockers@.len(),
                forall|k: int|
                    0 <= k < j ==> {
                        &&& self@.contains((#[trigger] self@.blockers[k]).task_id)
                        &&& self@.contains(self@.blockers[k].blocker_id)
                        &&& self@.blockers[k].task_id != self@.blockers[k].blocker_id
                    },
                forall|a: int, b: int|
                    0 <= a < b < j ==> #[trigger] self@.blockers[a] != #[trigger] self@.blockers[b],
            decreases self.blockers@.len() - j,
        {
            let e = &self.blockers[j];
            if !self.task_exists(&e.task_id) || !self.task_exists(&e.blocker_id) || e.task_id
                == e.blocker_id {
                assert(!({
                    &&& self@.contains(self@.blockers[j as int].task_id)
                    &&& self@.contains(self@.blockers[j as int].blocker_id)
                    &&& self@.blockers[j as int].task_id != self@.blockers[j as int].blocker_id
                }));
                return false;
            }
            let mut i: usize = 0;
            while i < j
                invariant
                    i <= j,
                    j < self.blockers@.len(),
                    forall|a: int| 0 <= a < i ==> #[trigger] self@.blockers[a] != self@.blockers[j as int],
                decreases j - i,
            {
                let d = &self.blockers[i];
                if d.task_id == e.task_id && d.blocker_id == e.blocker_id {
                    assert(self@.blockers[i as int] == self@.blockers[j as int]);
                    return false;
                }
                i += 1;
            }
            j += 1;
        }
        true
    }

    /// Whether the learnings are well formed.
    #[verifier::loop_isolation(false)]
    fn has_sound_learnings(&self) -> (r: bool)
        ensures
            r == self@.learnings_ok(),
    {
        proof {
            reveal(StoreView::learnings_ok);
        }
        let mut j: usize = 0;
        while j < self.learnings.len()
            invariant
                j <= self.learnings@.len(),
                forall|k: int| 0 <= k < j ==> self@.contains((#[trigger] self@.learnings[k]).task_id),
                forall|a: int, b: int|
                    0 <= a < b < j ==> (#[trigger] self@.learnings[a]).id != (
                    #[trigger] self@.learnings[b]).id,
                forall|a: int, b: int|
                    0 <= a < b < j ==> !({
                        &&& (#[trigger] self@.learnings[a]).task_id == (
                        #[trigger] self@.learnings[b]).task_id
                        &&& self@.learnings[a].source_task_id == self@.learnings[b].source_task_id
                        &&& self@.learnings[a].content == self@.learnings[b].content
                    }),
            decreases self.learnings@.len() - j,
        {
            let l = &self.learnings[j];
            if !self.task_exists(&l.task_id) {
                assert(!self@.contains(self@.learnings[j as int].task_id));
                return false;
            }
            let mut i: usize = 0;
            while i < j
                invariant
                    i <= j,
                    j < self.learnings@.len(),
                    forall|a: int|
                        0 <= a < i ==> (#[trigger] self@.learnings[a]).id != self@.learnings[j as int].id,
                    forall|a: int|
                        0 <= a < i ==> !({
                            &&& (#[trigger] self@.learnings[a]).task_id == self@.learnings[j as int].task_id
                            &&& self@.learnings[a].source_task_id
                                == self@.learnings[j as int].source_task_id
                            &&& self@.learnings[a].content == self@.learnings[j as int].content
                        }),
                decreases j - i,
            {
                let k = &self.learnings[i];
                if k.id == l.id {
                    assert(self@.learnings[i as int].id == self@.learnings[j as int].id);
                    return false;
                }
                let same_origin = match (&k.source_task_id, &l.source_task_id) {
                    (Some(a), Some(b)) => *a == *b,
                    (None, None) => true,
                    _ => false,
                };
                if k.task_id == l.task_id && same_origin && k.content == l.content {
                    assert({
                        &&& self@.learnings[i as int].task_id == self@.learnings[j as int].task_id
                        &&& self@.learnings[i as int].source_task_id
                            == self@.learnings[j as int].source_task_id
                        &&& self@.learnings[i as int].content == self@.learnings[j as int].content
                    });
                    return false;
                }
                i += 1;
            }
            j += 1;
        }
        true
    }

    /// The contents that a store made of these parts would have.
    pub open spec fn parts_view(
        tasks: Seq<Task>,
        blockers: Seq<BlockerRelation>,
        learnings: Seq<Learning>,
    ) -> StoreView {
        StoreView {
            tasks: tasks_view(tasks),
            blockers: edges_view(blockers),
            learnings: learnings_view(learnings),
        }
    }

    /// The store that holds these tasks, blocker edges and learnings, if
    /// they are well formed together: identifiers that are unique, parents
    /// that are stored, no task deeper than a subtask, edges between
    /// different stored tasks without repetition, and learnings of stored
    /// tasks with unique identifiers and contents. What is derived of the
    /// tasks is not kept.
    pub fn from_parts(tasks: Vec<Task>, blockers: Vec<BlockerRelation>, learnings: Vec<Learning>) -> (r:
        Result<Store, OsError>)
        ensures
            r is Ok <==> Self::parts_view(tasks@, blockers@, learnings@).wf(),
            r matches Ok(s) ==> s@ == Self::parts_view(tasks@, blockers@, learnings@),
            r matches Err(e) ==> e is Database,
    {
        let mut bare: Vec<Task> = Vec::new();
        let mut i: usize = 0;
        while i < tasks.len()
            invariant
                i <= tasks@.len(),
                bare@.len() == i,
                forall|k: int| 0 <= k < i ==> bare@[k]@ == tasks@[k]@,
            decreases tasks@.len() - i,
        {
            bare.push(tasks[i].stored_copy());
            i += 1;
        }
        let store = Store { tasks: bare, blockers, learnings };
        assert(store@.tasks =~= tasks_view(tasks@));
        if !store.has_unique_ids() {
            return Err(OsError::Database(String::from_str("two tasks share an identifier")));
        }
        if !store.has_bounded_forest() {
            return Err(
                OsError::Database(
                    String::from_str("a parent is missing or a task lies deeper than a subtask"),
                ),
            );
        }
        if !store.has_sound_blockers() {
            return Err(OsError::Database(String::from_str("a blocker edge is not well formed")));
        }
        if !store.has_sound_learnings() {
            return Err(OsError::Database(String::from_str("a learning is not well formed")));
        }
        Ok(store)
    }

    /// Copies of the stored tasks, in stored order, each with its blocker
    /// edges.
    pub fn all_tasks(&self) -> (r: Vec<Task>)
        ensures
            tasks_view(r@) == self@.tasks,
            forall|k: int| 0 <= k < r@.len() ==> self.is_hydrated(#[trigger] r@[k]),
    {
        let mut out: Vec<Task> = Vec::new();
        let mut i: usize = 0;
        while i < self.tasks.len()
            invariant
                i <= self.tasks@.len(),
                out@.len() == i,
                forall|k: int| 0 <= k < i ==> out@[k]@ == self@.tasks[k],
                forall|k: int| 0 <= k < i ==> self.is_hydrated(#[trigger] out@[k]),
            decreases self.tasks@.len() - i,
        {
            out.push(self.task_at(i));
            i += 1;
        }
        assert(tasks_view(out@) =~= self@.tasks);
        out
    }

    /// Copies of the stored blocker edges, in stored order.
    pub fn all_blockers(&self) -> (r: Vec<BlockerRelation>)
        ensures
            edges_view(r@) == self@.blockers,
    {
        let mut out: Vec<BlockerRelation> = Vec::new();
        let mut i: usize = 0;
        while i < self.blockers.len()
            invariant
                i <= self.blockers@.len(),
                out@.len() == i,
                forall|k: int| 0 <= k < i ==> out@[k]@ == self@.blockers[k],
            decreases self.blockers@.len() - i,
        {
            let e = &self.blockers[i];
            out.push(
                BlockerRelation { task_id: e.task_id.clone(), blocker_id: e.blocker_id.clone() },
            );
            i += 1;
        }
        assert(edges_view(out@) =~= self@.blockers);
        out
    }

    /// Copies of the stored learnings, in stored order.
    pub fn all_learnings(&self) -> (r: Vec<Learning>)
        ensures
            learnings_view(r@) == self@.learnings,
    {
        let mut out: Vec<Learning> = Vec::new();
        let mut i: usize = 0;
        while i < self.learnings.len()
            invariant
                i <= self.learnings@.len(),
                out@.len() == i,
                forall|k: int| 0 <= k < i ==> out@[k]@ == self@.learnings[k],
            decreases self.learnings@.len() - i,
        {
            out.push(self.learnings[i].copy());
            i += 1;
        }
        assert(learnings_view(out@) =~= self@.learnings);
        out
    }
}

} // verus!
