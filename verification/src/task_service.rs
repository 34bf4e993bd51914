//! Task operations on a store: creation and change with the structural
//! checks, the lifecycle transitions with their guards, and blocker edges.

use vstd::prelude::*;

use crate::error::{BlockerRelationKind, OsError};
use crate::graph::would_create_blocker_cycle;
use crate::id::{LearningId, TaskId};
use crate::model::{max_depth, StoreView};
use crate::order::tasks_view;
use crate::store::{opt_text, Store};
use crate::types::{
    ids_view, learnings_view, lids_view, opt_id_view, strs_view, CreateTaskInput,
    InheritedLearnings, Learning, LearningView, LifecycleState, ListTasksFilter, Task,
    TaskContext, TaskContextView, TaskView, Timestamp, UpdateTaskInput,
};

verus! {

impl StoreView {
    /// The task `t` is stored and carries its blocker edges, its depth and
    /// whether it is effectively blocked as the store has them.
    pub open spec fn describes(self, t: Task) -> bool {
        &&& self.contains(t@.id)
        &&& t@ == self.task(t@.id)
        &&& ids_view(t.blocked_by@) == self.blockers_of(t@.id)
        &&& ids_view(t.blocks@) == self.blocked_by_it(t@.id)
        &&& t.depth == Some(self.depth(t@.id) as i32)
        &&& t.effectively_blocked == self.effectively_blocked(t@.id)
    }

    /// The context of a task with those of its parent and its milestone. A
    /// task directly under a milestone has the milestone in both places.
    pub open spec fn context_chain(self, id: Seq<char>) -> TaskContextView {
        let above = self.ancestors(id);
        let own = self.task(id).context;
        if above.len() == 0 {
            TaskContextView { own: own, parent: None, milestone: None }
        } else if above.len() == 1 {
            let c = self.task(above[0]).context;
            TaskContextView { own: own, parent: Some(c), milestone: Some(c) }
        } else {
            TaskContextView {
                own: own,
                parent: Some(self.task(above[0]).context),
                milestone: Some(self.task(above[1]).context),
            }
        }
    }

    /// The learnings that a task inherits from its milestone.
    pub open spec fn milestone_learnings(self, id: Seq<char>) -> Seq<LearningView> {
        let above = self.ancestors(id);
        if above.len() == 0 {
            Seq::empty()
        } else if above.len() == 1 {
            self.learnings_of(above[0])
        } else {
            self.learnings_of(above[1])
        }
    }

    /// The learnings that a subtask inherits from its parent task.
    pub open spec fn parent_learnings(self, id: Seq<char>) -> Seq<LearningView> {
        let above = self.ancestors(id);
        if above.len() <= 1 {
            Seq::empty()
        } else {
            self.learnings_of(above[0])
        }
    }

    /// `describes`, and the task carries its context chain and the
    /// learnings it inherits.
    pub open spec fn describes_fully(self, t: Task) -> bool {
        &&& self.describes(t)
        &&& t.context_chain matches Some(c)
        &&& c@ == self.context_chain(t@.id)
        &&& t.learnings matches Some(l)
        &&& learnings_view(l.milestone@) == self.milestone_learnings(t@.id)
        &&& learnings_view(l.parent@) == self.parent_learnings(t@.id)
    }

    /// The blocker `b` cannot be given to a new task under `parent`: it is
    /// not stored, or it is the parent or an ancestor of the parent.
    pub open spec fn refuses_blocker(self, parent: Option<Seq<char>>, b: Seq<char>) -> bool {
        !self.contains(b) || (parent is Some && (b == parent->0 || self.is_ancestor(b, parent->0)))
    }

    /// The first of `blockers` that is refused.
    pub open spec fn first_refused(
        self,
        parent: Option<Seq<char>>,
        blockers: Seq<Seq<char>>,
    ) -> Option<Seq<char>>
        decreases blockers.len(),
    {
        if blockers.len() == 0 {
            None
        } else if self.refuses_blocker(parent, blockers[0]) {
            Some(blockers[0])
        } else {
            self.first_refused(parent, blockers.skip(1))
        }
    }
}

impl StoreView {
    /// `b` is `parent` or an ancestor of it.
    pub open spec fn is_at_or_above(self, b: Seq<char>, parent: Seq<char>) -> bool {
        b == parent || self.is_ancestor(b, parent)
    }

    /// The first of `blockers` that is `parent` or an ancestor of it.
    pub open spec fn first_above(self, parent: Seq<char>, blockers: Seq<Seq<char>>) -> Option<
        Seq<char>,
    >
        decreases blockers.len(),
    {
        if blockers.len() == 0 {
            None
        } else if self.is_at_or_above(blockers[0], parent) {
            Some(blockers[0])
        } else {
            self.first_above(parent, blockers.skip(1))
        }
    }

    /// The write of `record` went through: it is in the store, and the
    /// task handed back is the record as the store now describes it.
    pub open spec fn wrote(self, post: StoreView, record: TaskView, r: Result<Task, OsError>) -> bool {
        &&& r matches Ok(t)
        &&& t@ == record
        &&& post == self.with_task(record)
        &&& post.describes(t)
    }

    /// The operation was refused with `TaskNotFound` for `id`.
    pub open spec fn not_found<T>(self, post: StoreView, id: Seq<char>, r: Result<T, OsError>) -> bool {
        &&& r matches Err(OsError::TaskNotFound(missing))
        &&& missing@ == id
        &&& post == self
    }
}

/// Priority is 0, 1 or 2.
pub open spec fn valid_priority(p: i32) -> bool {
    0 <= p <= 2
}

/// `e` is the refusal of `blocker` for `task` because of how the two are
/// related.
pub open spec fn is_relation_error(
    e: OsError,
    kind: BlockerRelationKind,
    task: Seq<char>,
    blocker: Seq<char>,
) -> bool {
    &&& e matches OsError::InvalidBlockerRelation { kind: k, task_id, blocker_id, .. }
    &&& k == kind
    &&& task_id@ == task
    &&& blocker_id@ == blocker
}

/// `e` says that no child can be attached to `parent` in its state.
pub open spec fn is_inactive_parent_error(e: OsError, parent: TaskView) -> bool {
    &&& e matches OsError::CannotAttachChildToInactiveParent { parent_id, state }
    &&& parent_id@ == parent.id
    &&& state@ == state_name(parent.state())
}

/// The name of a lifecycle state.
pub open spec fn state_name(s: LifecycleState) -> Seq<char> {
    match s {
        LifecycleState::Pending => "Pending"@,
        LifecycleState::InProgress => "InProgress"@,
        LifecycleState::Completed => "Completed"@,
        LifecycleState::Cancelled => "Cancelled"@,
        LifecycleState::Archived => "Archived"@,
    }
}

/// Nothing is refused exactly where every blocker is accepted, and what is
/// refused is one of the blockers.
pub proof fn lemma_first_refused(s: StoreView, parent: Option<Seq<char>>, blockers: Seq<Seq<char>>)
    ensures
        s.first_refused(parent, blockers) is None <==> forall|k: int|
            0 <= k < blockers.len() ==> !s.refuses_blocker(parent, #[trigger] blockers[k]),
        s.first_refused(parent, blockers) matches Some(b) ==> blockers.contains(b)
            && s.refuses_blocker(parent, b),
    decreases blockers.len(),
{
    if blockers.len() > 0 {
        let rest = blockers.skip(1);
        lemma_first_refused(s, parent, rest);
        if !s.refuses_blocker(parent, blockers[0]) {
            if s.first_refused(parent, rest) is None {
                assert forall|k: int| 0 <= k < blockers.len() implies !s.refuses_blocker(
                    parent,
                    #[trigger] blockers[k],
                ) by {
                    if k > 0 {
                        assert(rest[k - 1] == blockers[k]);
                    }
                }
            } else {
                let b = s.first_refused(parent, rest)->0;
                let j = choose|j: int| 0 <= j < rest.len() && rest[j] == b;
                assert(blockers[j + 1] == b);
            }
        } else {
            assert(blockers[0] == blockers[0]);
        }
        if forall|k: int| 0 <= k < blockers.len() ==> !s.refuses_blocker(parent, #[trigger] blockers[k]) {
            assert forall|k: int| 0 <= k < rest.len() implies !s.refuses_blocker(
                parent,
                #[trigger] rest[k],
            ) by {
                assert(rest[k] == blockers[k + 1]);
            }
            assert(!s.refuses_blocker(parent, blockers[0]));
        }
    }
}

/// The task operations, on the store they own.
pub struct TaskService {
    pub store: Store,
}

impl View for TaskService {
    type V = StoreView;

    open spec fn view(&self) -> StoreView {
        self.store@
    }
}

impl TaskService {
    /// The service on a store.
    pub fn new(store: Store) -> (s: TaskService)
        ensures
            s.store == store,
    {
        TaskService { store }
    }

    /// Fills in the depth of a task and whether it is effectively blocked.
    fn hydrate(&self, task: Task) -> (t: Task)
        requires
            self@.wf(),
            self@.contains(task@.id),
            task@ == self@.task(task@.id),
            self.store.is_hydrated(task),
        ensures
            t@ == task@,
            self@.describes(t),
            t.context_chain is None,
            t.learnings is None,
    {
        let mut t = task;
        let depth = self.store.get_task_depth(&t.id);
        let blocked = self.store.effectively_blocked(&t.id);
        t.depth = Some(depth);
        t.effectively_blocked = blocked;
        t
    }

    /// The context of a task with those of its parent and its milestone.
    fn assemble_context_chain(&self, task: &Task) -> (c: TaskContext)
        requires
            self@.wf(),
            self@.contains(task@.id),
            task@ == self@.task(task@.id),
        ensures
            c@ == self@.context_chain(task@.id),
    {
        let above = self.store.ancestor_ids(&task.id);
        let own = task.context.clone();
        proof {
            assert(ids_view(above@).len() == above@.len());
            if above@.len() > 0 {
                assert(ids_view(above@)[0] == above@[0]@);
            }
            if above@.len() > 1 {
                assert(ids_view(above@)[1] == above@[1]@);
            }
            crate::model::lemma_ancestors_stored(self@, task@.id);
        }
        if above.len() == 0 {
            TaskContext { own, parent: None, milestone: None }
        } else if above.len() == 1 {
            let parent = self.store.get_task(&above[0]).unwrap();
            TaskContext {
                own,
                parent: Some(parent.context.clone()),
                milestone: Some(parent.context),
            }
        } else {
            let parent = self.store.get_task(&above[0]).unwrap();
            let milestone = self.store.get_task(&above[1]).unwrap();
            TaskContext { own, parent: Some(parent.context), milestone: Some(milestone.context) }
        }
    }

    /// The learnings a task inherits from its milestone and its parent.
    fn assemble_inherited_learnings(&self, task: &Task) -> (l: InheritedLearnings)
        requires
            self@.wf(),
        ensures
            learnings_view(l.milestone@) == self@.milestone_learnings(task@.id),
            learnings_view(l.parent@) == self@.parent_learnings(task@.id),
    {
        let above = self.store.ancestor_ids(&task.id);
        proof {
            assert(ids_view(above@).len() == above@.len());
            if above@.len() > 0 {
                assert(ids_view(above@)[0] == above@[0]@);
            }
            if above@.len() > 1 {
                assert(ids_view(above@)[1] == above@[1]@);
            }
        }
        if above.len() == 0 {
            let l = InheritedLearnings { milestone: Vec::new(), parent: Vec::new() };
            assert(learnings_view(l.milestone@) =~= Seq::empty());
            assert(learnings_view(l.parent@) =~= Seq::empty());
            l
        } else if above.len() == 1 {
            let l = InheritedLearnings {
                milestone: self.store.list_learnings(&above[0]),
                parent: Vec::new(),
            };
            assert(learnings_view(l.parent@) =~= Seq::empty());
            l
        } else {
            InheritedLearnings {
                milestone: self.store.list_learnings(&above[1]),
                parent: self.store.list_learnings(&above[0]),
            }
        }
    }

    /// The task with this identifier, with everything that is derived:
    /// blocker edges, depth, blocking, context chain and inherited
    /// learnings.
    pub fn get(&self, id: &TaskId) -> (r: Result<Task, OsError>)
        requires
            self@.wf(),
        ensures
            self@.contains(id@) ==> (r matches Ok(t) && t@.id == id@ && self@.describes_fully(t)),
            !self@.contains(id@) ==> (r matches Err(OsError::TaskNotFound(missing)) && missing@
                == id@),
    {
        match self.store.get_task(id) {
            None => Err(OsError::TaskNotFound(id.clone())),
            Some(task) => {
                proof {
                    crate::model::lemma_task_of(self@, id@);
                }
                let mut t = self.hydrate(task);
                let chain = self.assemble_context_chain(&t);
                let learnings = self.assemble_inherited_learnings(&t);
                t.context_chain = Some(chain);
                t.learnings = Some(learnings);
                Ok(t)
            },
        }
    }

    /// The task `id` as it stands in the store, with blocker edges, depth
    /// and blocking.
    fn described(&self, id: &TaskId) -> (t: Task)
        requires
            self@.wf(),
            self@.contains(id@),
        ensures
            t@.id == id@,
            self@.describes(t),
    {
        proof {
            crate::model::lemma_task_of(self@, id@);
        }
        let task = self.store.get_task(id).unwrap();
        self.hydrate(task)
    }

    // ----- create -----

    /// What `create_at` answers and leaves behind.
    pub open spec fn create_post(
        pre: StoreView,
        input: CreateTaskInput,
        id: Seq<char>,
        now: Timestamp,
        post: StoreView,
        r: Result<Task, OsError>,
    ) -> bool {
        let c = input@;
        let parent = c.parent_id;
        if c.priority is Some && !valid_priority(c.priority->0) {
            r matches Err(OsError::InvalidPriority(p)) && p == c.priority->0 && post == pre
        } else if parent is Some && !pre.contains(parent->0) {
            r matches Err(OsError::ParentNotFound(p)) && p@ == parent->0 && post == pre
        } else if parent is Some && !pre.task(parent->0).is_active_for_work() {
            r matches Err(e) && is_inactive_parent_error(e, pre.task(parent->0)) && post == pre
        } else if parent is Some && pre.depth(parent->0) >= max_depth() {
            r matches Err(OsError::MaxDepthExceeded) && post == pre
        } else if pre.first_refused(parent, c.blocked_by) is Some {
            let b = pre.first_refused(parent, c.blocked_by)->0;
            if !pre.contains(b) {
                r matches Err(OsError::BlockerNotFound(x)) && x@ == b && post == pre
            } else {
                r matches Err(e) && is_relation_error(e, BlockerRelationKind::Ancestor, id, b)
                    && post == pre
            }
        } else if pre.contains(id) {
            r matches Err(OsError::Database(_)) && post == pre
        } else {
            &&& r matches Ok(t)
            &&& t@ == c.record(id, now)
            &&& post == pre.inserted(c.record(id, now), c.blocked_by)
            &&& post.describes(t)
        }
    }

    /// Creates a task under the identifier `id` at the time `now`.
    ///
    /// The priority must be 0, 1 or 2 where one is given; the parent must be
    /// stored, open for work and not a subtask; each blocker must be
    /// stored and be neither the parent nor an ancestor of it.
    #[verifier::loop_isolation(false)]
    pub fn create_at(&mut self, input: &CreateTaskInput, id: TaskId, now: Timestamp) -> (r:
        Result<Task, OsError>)
        requires
            old(self)@.wf(),
        ensures
            final(self)@.wf(),
            Self::create_post(old(self)@, *input, id@, now, final(self)@, r),
    {
        if let Some(p) = input.priority {
            if p < 0 || p > 2 {
                return Err(OsError::InvalidPriority(p));
            }
        }
        if let Some(parent_id) = &input.parent_id {
            let parent = match self.store.get_task(parent_id) {
                Some(p) => p,
                None => {
                    return Err(OsError::ParentNotFound(parent_id.clone()));
                },
            };
            if !parent.is_active_for_work() {
                return Err(
                    OsError::CannotAttachChildToInactiveParent {
                        parent_id: parent_id.clone(),
                        state: String::from_str(parent.lifecycle_state().name()),
                    },
                );
            }
            if self.store.get_task_depth(parent_id) >= 2 {
                return Err(OsError::MaxDepthExceeded);
            }
        }
        let ghost all = input@.blocked_by;
        let ghost parent = input@.parent_id;
        let mut i: usize = 0;
        proof {
            assert(all.skip(0) =~= all);
        }
        while i < input.blocked_by.len()
            invariant
                i <= input.blocked_by@.len(),
                self@ == old(self)@,
                self@.wf(),
                all == input@.blocked_by,
                parent == input@.parent_id,
                self@.first_refused(parent, all) == self@.first_refused(parent, all.skip(i as int)),
            decreases input.blocked_by@.len() - i,
        {
            let b = &input.blocked_by[i];
            proof {
                assert(all.skip(i as int)[0] == b@);
                assert(all.skip(i as int).skip(1) =~= all.skip(i + 1));
            }
            if !self.store.task_exists(b) {
                return Err(OsError::BlockerNotFound(b.clone()));
            }
            if let Some(parent_id) = &input.parent_id {
                if *b == *parent_id || self.store.is_ancestor(b, parent_id) {
                    return Err(
                        OsError::InvalidBlockerRelation {
                            kind: BlockerRelationKind::Ancestor,
                            message: String::from_str("Cannot block a task by its ancestor"),
                            task_id: id,
                            blocker_id: b.clone(),
                        },
                    );
                }
            }
            i += 1;
        }
        proof {
            lemma_first_refused(self@, parent, all);
            crate::model::lemma_first_missing(self@, all);
            assert forall|k: int| 0 <= k < all.len() implies self@.contains(#[trigger] all[k]) by {
                assert(!self@.refuses_blocker(parent, all[k]));
            }
        }
        let ghost pre = self@;
        let ghost record = input@.record(id@, now);
        match self.store.create_task(input, id, now) {
            Err(e) => Err(e),
            Ok(task) => {
                proof {
                    crate::model::lemma_push_keeps(pre, self@, record, record.id);
                }
                Ok(self.hydrate(task))
            },
        }
    }

    /// Creates a task under a fresh identifier at the current time.
    pub fn create(&mut self, input: &CreateTaskInput) -> (r: Result<Task, OsError>)
        requires
            old(self)@.wf(),
        ensures
            final(self)@.wf(),
            exists|id: Seq<char>, now: Timestamp|
                TaskId::is_well_formed(id) && Self::create_post(
                    old(self)@,
                    *input,
                    id,
                    now,
                    final(self)@,
                    r,
                ),
    {
        let id = TaskId::new();
        let now = Timestamp::now();
        let ghost witness = id@;
        let r = self.create_at(input, id, now);
        assert(TaskId::is_well_formed(witness) && Self::create_post(
            old(self)@,
            *input,
            witness,
            now,
            self@,
            r,
        ));
        r
    }

    // ----- update -----

    /// What `update_at` answers and leaves behind.
    pub open spec fn update_post(
        pre: StoreView,
        id: Seq<char>,
        input: UpdateTaskInput,
        now: Timestamp,
        post: StoreView,
        r: Result<Task, OsError>,
    ) -> bool {
        let patch = input@;
        let parent = patch.parent_id;
        if !pre.contains(id) {
            pre.not_found(post, id, r)
        } else if pre.task(id).archived {
            r matches Err(OsError::CannotModifyArchived) && post == pre
        } else if patch.priority is Some && !valid_priority(patch.priority->0) {
            r matches Err(OsError::InvalidPriority(p)) && p == patch.priority->0 && post == pre
        } else if parent is Some && !pre.contains(parent->0) {
            r matches Err(OsError::ParentNotFound(p)) && p@ == parent->0 && post == pre
        } else if parent is Some && !pre.task(parent->0).is_active_for_work() {
            r matches Err(e) && is_inactive_parent_error(e, pre.task(parent->0)) && post == pre
        } else if parent is Some && pre.closes_parent_cycle(id, parent->0) {
            r matches Err(OsError::ParentCycle) && post == pre
        } else if parent is Some && !pre.fits_under(id, parent->0) {
            r matches Err(OsError::MaxDepthExceeded) && post == pre
        } else if parent is Some && pre.first_above(parent->0, pre.blockers_of(id)) is Some {
            r matches Err(e) && is_relation_error(
                e,
                BlockerRelationKind::Ancestor,
                id,
                pre.first_above(parent->0, pre.blockers_of(id))->0,
            ) && post == pre
        } else {
            pre.wrote(post, pre.task(id).patched(patch, now), r)
        }
    }

    /// Writes the fields of `input` that are set to the task `id`, at the
    /// time `now`.
    ///
    /// An archived task is not changed. A new parent must be stored and
    /// open for work, must not be the task or lie below it, and the task
    /// must fit under it with what lies below the task; no blocker of the
    /// task may be the new parent or an ancestor of it.
    #[verifier::loop_isolation(false)]
    pub fn update_at(&mut self, id: &TaskId, input: &UpdateTaskInput, now: Timestamp) -> (r:
        Result<Task, OsError>)
        requires
            old(self)@.wf(),
        ensures
            final(self)@.wf(),
            Self::update_post(old(self)@, id@, *input, now, final(self)@, r),
    {
        let task = match self.store.get_task(id) {
            Some(t) => t,
            None => {
                return Err(OsError::TaskNotFound(id.clone()));
            },
        };
        if task.archived {
            return Err(OsError::CannotModifyArchived);
        }
        if let Some(p) = input.priority {
            if p < 0 || p > 2 {
                return Err(OsError::InvalidPriority(p));
            }
        }
        if let Some(parent_id) = &input.parent_id {
            let parent = match self.store.get_task(parent_id) {
                Some(p) => p,
                None => {
                    return Err(OsError::ParentNotFound(parent_id.clone()));
                },
            };
            if !parent.is_active_for_work() {
                return Err(
                    OsError::CannotAttachChildToInactiveParent {
                        parent_id: parent_id.clone(),
                        state: String::from_str(parent.lifecycle_state().name()),
                    },
                );
            }
            if *parent_id == *id || self.store.is_ancestor(id, parent_id) {
                return Err(OsError::ParentCycle);
            }
            let depth = self.store.get_task_depth(parent_id);
            let height = self.store.subtree_height(id);
            if depth + 1 + height > 2 {
                return Err(OsError::MaxDepthExceeded);
            }
            let blockers = self.store.get_blockers(id);
            let ghost all = ids_view(blockers@);
            let mut i: usize = 0;
            proof {
                assert(all.skip(0) =~= all);
            }
            while i < blockers.len()
                invariant
                    i <= blockers@.len(),
                    self@ == old(self)@,
                    self@.wf(),
                    all == ids_view(blockers@),
                    self@.first_above(parent_id@, all) == self@.first_above(
                        parent_id@,
                        all.skip(i as int),
                    ),
                decreases blockers@.len() - i,
            {
                let b = &blockers[i];
                proof {
                    assert(all.skip(i as int)[0] == b@);
                    assert(all.skip(i as int).skip(1) =~= all.skip(i + 1));
                }
                if *b == *parent_id || self.store.is_ancestor(b, parent_id) {
                    return Err(
                        OsError::InvalidBlockerRelation {
                            kind: BlockerRelationKind::Ancestor,
                            message: String::from_str("Reparent would make a blocker an ancestor"),
                            task_id: id.clone(),
                            blocker_id: b.clone(),
                        },
                    );
                }
                i += 1;
            }
        }
        let ghost pre = self@;
        match self.store.update_task(id, input, now) {
            Err(e) => Err(e),
            Ok(t) => {
                proof {
                    crate::model::lemma_task_of(pre, id@);
                    crate::model::lemma_replaced(pre, pre.index_of(id@), t@, id@);
                }
                Ok(self.hydrate(t))
            },
        }
    }

    /// Writes the fields of `input` that are set to the task `id`, at the
    /// current time.
    pub fn update(&mut self, id: &TaskId, input: &UpdateTaskInput) -> (r: Result<Task, OsError>)
        requires
            old(self)@.wf(),
        ensures
            final(self)@.wf(),
            exists|now: Timestamp| Self::update_post(old(self)@, id@, *input, now, final(self)@, r),
    {
        let now = Timestamp::now();
        let r = self.update_at(id, input, now);
        assert(Self::update_post(old(self)@, id@, *input, now, self@, r));
        r
    }

    // ----- transitions -----

    /// What `start_at` answers and leaves behind.
    pub open spec fn start_post(
        pre: StoreView,
        id: Seq<char>,
        now: Timestamp,
        post: StoreView,
        r: Result<Task, OsError>,
    ) -> bool {
        if !pre.contains(id) {
            pre.not_found(post, id, r)
        } else {
            pre.wrote(post, pre.task(id).started(now), r)
        }
    }

    /// Marks a task as started at `now`, unless it was started before.
    pub fn start_at(&mut self, id: &TaskId, now: Timestamp) -> (r: Result<Task, OsError>)
        requires
            old(self)@.wf(),
        ensures
            final(self)@.wf(),
            Self::start_post(old(self)@, id@, now, final(self)@, r),
    {
        let ghost pre = self@;
        match self.store.start_task(id, now) {
            Err(e) => Err(e),
            Ok(t) => {
                proof {
                    crate::model::lemma_task_of(pre, id@);
                    crate::model::lemma_replaced(pre, pre.index_of(id@), t@, id@);
                }
                Ok(self.hydrate(t))
            },
        }
    }

    /// Marks a task as started at the current time, unless it was started
    /// before.
    pub fn start(&mut self, id: &TaskId) -> (r: Result<Task, OsError>)
        requires
            old(self)@.wf(),
        ensures
            final(self)@.wf(),
            exists|now: Timestamp| Self::start_post(old(self)@, id@, now, final(self)@, r),
    {
        let now = Timestamp::now();
        let r = self.start_at(id, now);
        assert(Self::start_post(old(self)@, id@, now, self@, r));
        r
    }

    /// What `reopen_at` answers and leaves behind.
    pub open spec fn reopen_post(
        pre: StoreView,
        id: Seq<char>,
        now: Timestamp,
        post: StoreView,
        r: Result<Task, OsError>,
    ) -> bool {
        if !pre.contains(id) {
            pre.not_found(post, id, r)
        } else {
            match pre.task(id).state() {
                LifecycleState::Completed => pre.wrote(post, pre.task(id).reopened(now), r),
                LifecycleState::Cancelled => r matches Err(OsError::CannotReopenCancelled) && post
                    == pre,
                LifecycleState::Archived => r matches Err(OsError::CannotModifyArchived) && post
                    == pre,
                active => r matches Err(OsError::CannotReopenActive { state }) && state@
                    == state_name(active) && post == pre,
            }
        }
    }

    /// Makes a completed task pending again, at the time `now`. A task in
    /// any other state is not reopened.
    pub fn reopen_at(&mut self, id: &TaskId, now: Timestamp) -> (r: Result<Task, OsError>)
        requires
            old(self)@.wf(),
        ensures
            final(self)@.wf(),
            Self::reopen_post(old(self)@, id@, now, final(self)@, r),
    {
        let task = match self.store.get_task(id) {
            Some(t) => t,
            None => {
                return Err(OsError::TaskNotFound(id.clone()));
            },
        };
        match task.lifecycle_state() {
            LifecycleState::Completed => {},
            LifecycleState::Cancelled => {
                return Err(OsError::CannotReopenCancelled);
            },
            LifecycleState::Archived => {
                return Err(OsError::CannotModifyArchived);
            },
            active => {
                return Err(
                    OsError::CannotReopenActive { state: String::from_str(active.name()) },
                );
            },
        }
        let ghost pre = self@;
        match self.store.reopen_task(id, now) {
            Err(e) => Err(e),
            Ok(t) => {
                proof {
                    crate::model::lemma_task_of(pre, id@);
                    crate::model::lemma_replaced(pre, pre.index_of(id@), t@, id@);
                }
                Ok(self.hydrate(t))
            },
        }
    }

    /// Makes a completed task pending again, at the current time.
    pub fn reopen(&mut self, id: &TaskId) -> (r: Result<Task, OsError>)
        requires
            old(self)@.wf(),
        ensures
            final(self)@.wf(),
            exists|now: Timestamp| Self::reopen_post(old(self)@, id@, now, final(self)@, r),
    {
        let now = Timestamp::now();
        let r = self.reopen_at(id, now);
        assert(Self::reopen_post(old(self)@, id@, now, self@, r));
        r
    }

    /// What `cancel_at` answers and leaves behind.
    pub open spec fn cancel_post(
        pre: StoreView,
        id: Seq<char>,
        now: Timestamp,
        post: StoreView,
        r: Result<Task, OsError>,
    ) -> bool {
        if !pre.contains(id) {
            pre.not_found(post, id, r)
        } else {
            match pre.task(id).state() {
                LifecycleState::Completed => r matches Err(OsError::CannotCancelCompleted) && post
                    == pre,
                LifecycleState::Cancelled => r matches Err(OsError::AlreadyCancelled) && post
                    == pre,
                LifecycleState::Archived => r matches Err(OsError::CannotModifyArchived) && post
                    == pre,
                _ => if pre.has_pending_children(id) {
                    r matches Err(OsError::PendingChildren) && post == pre
                } else {
                    pre.wrote(post, pre.task(id).cancelled_now(now), r)
                },
            }
        }
    }

    /// Cancels a task that is pending or in progress and has no child that
    /// is neither completed nor cancelled, at the time `now`.
    pub fn cancel_at(&mut self, id: &TaskId, now: Timestamp) -> (r: Result<Task, OsError>)
        requires
            old(self)@.wf(),
        ensures
            final(self)@.wf(),
            Self::cancel_post(old(self)@, id@, now, final(self)@, r),
    {
        let task = match self.store.get_task(id) {
            Some(t) => t,
            None => {
                return Err(OsError::TaskNotFound(id.clone()));
            },
        };
        match task.lifecycle_state() {
            LifecycleState::Completed => {
                return Err(OsError::CannotCancelCompleted);
            },
            LifecycleState::Cancelled => {
                return Err(OsError::AlreadyCancelled);
            },
            LifecycleState::Archived => {
                return Err(OsError::CannotModifyArchived);
            },
            _ => {},
        }
        if self.store.has_pending_children(id) {
            return Err(OsError::PendingChildren);
        }
        let ghost pre = self@;
        match self.store.cancel_task(id, now) {
            Err(e) => Err(e),
            Ok(t) => {
                proof {
                    crate::model::lemma_task_of(pre, id@);
                    crate::model::lemma_replaced(pre, pre.index_of(id@), t@, id@);
                }
                Ok(self.hydrate(t))
            },
        }
    }

    /// Cancels a task at the current time.
    pub fn cancel(&mut self, id: &TaskId) -> (r: Result<Task, OsError>)
        requires
            old(self)@.wf(),
        ensures
            final(self)@.wf(),
            exists|now: Timestamp| Self::cancel_post(old(self)@, id@, now, final(self)@, r),
    {
        let now = Timestamp::now();
        let r = self.cancel_at(id, now);
        assert(Self::cancel_post(old(self)@, id@, now, self@, r));
        r
    }

    /// What `archive_at` answers and leaves behind.
    pub open spec fn archive_post(
        pre: StoreView,
        id: Seq<char>,
        now: Timestamp,
        post: StoreView,
        r: Result<Task, OsError>,
    ) -> bool {
        if !pre.contains(id) {
            pre.not_found(post, id, r)
        } else if pre.task(id).state() == LifecycleState::Archived {
            r matches Err(OsError::AlreadyArchived) && post == pre
        } else if pre.task(id).is_active_for_work() {
            r matches Err(OsError::CannotArchiveActive) && post == pre
        } else if pre.depth(id) == 0 && !pre.descendants_finished(id) {
            r matches Err(OsError::CannotArchiveActive) && post == pre
        } else {
            &&& r matches Ok(t)
            &&& t@ == pre.task(id).archived_now(now)
            &&& post.describes(t)
            &&& post == if pre.depth(id) == 0 {
                pre.with_subtree_archived(id, now)
            } else {
                pre.with_task(pre.task(id).archived_now(now))
            }
        }
    }

    /// Archives a completed or cancelled task at the time `now`. A
    /// milestone is archived only where every task below it is completed,
    /// cancelled or archived, and then those that are not archived yet
    /// are archived with it.
    pub fn archive_at(&mut self, id: &TaskId, now: Timestamp) -> (r: Result<Task, OsError>)
        requires
            old(self)@.wf(),
        ensures
            final(self)@.wf(),
            Self::archive_post(old(self)@, id@, now, final(self)@, r),
    {
        let task = match self.store.get_task(id) {
            Some(t) => t,
            None => {
                return Err(OsError::TaskNotFound(id.clone()));
            },
        };
        match task.lifecycle_state() {
            LifecycleState::Completed | LifecycleState::Cancelled => {},
            LifecycleState::Archived => {
                return Err(OsError::AlreadyArchived);
            },
            _ => {
                return Err(OsError::CannotArchiveActive);
            },
        }
        let ghost pre = self@;
        proof {
            crate::model::lemma_task_of(pre, id@);
        }
        if self.store.get_task_depth(id) == 0 {
            if !self.store.descendants_finished(id) {
                return Err(OsError::CannotArchiveActive);
            }
            self.store.archive_subtree(id, now);
            proof {
                crate::model::lemma_same_forest(pre, self@, id@);
                let i = pre.index_of(id@);
                assert(self@.tasks[i] == pre.task(id@).archived_now(now));
                crate::model::lemma_task_at(self@, i);
            }
            Ok(self.described(id))
        } else {
            match self.store.archive_task(id, now) {
                Err(e) => Err(e),
                Ok(t) => {
                    proof {
                        crate::model::lemma_replaced(pre, pre.index_of(id@), t@, id@);
                    }
                    Ok(self.hydrate(t))
                },
            }
        }
    }

    /// Archives a task at the current time.
    pub fn archive(&mut self, id: &TaskId) -> (r: Result<Task, OsError>)
        requires
            old(self)@.wf(),
        ensures
            final(self)@.wf(),
            exists|now: Timestamp| Self::archive_post(old(self)@, id@, now, final(self)@, r),
    {
        let now = Timestamp::now();
        let r = self.archive_at(id, now);
        assert(Self::archive_post(old(self)@, id@, now, self@, r));
        r
    }

    /// Deletes a task with the tasks below it, their learnings and every
    /// blocker edge that touches one of them.
    pub fn delete(&mut self, id: &TaskId) -> (r: Result<(), OsError>)
        requires
            old(self)@.wf(),
        ensures
            final(self)@.wf(),
            !old(self)@.contains(id@) ==> old(self)@.not_found(final(self)@, id@, r),
            old(self)@.contains(id@) ==> r is Ok && final(self)@ == old(self)@.without_subtree(id@),
    {
        if !self.store.task_exists(id) {
            return Err(OsError::TaskNotFound(id.clone()));
        }
        self.store.delete_task(id);
        Ok(())
    }

    // ----- listings -----

    /// The tasks that the filter lets through, in traversal order. With
    /// `ready` set these are the tasks that are open for work and not
    /// effectively blocked.
    pub fn list(&self, filter: &ListTasksFilter) -> (r: Result<Vec<Task>, OsError>)
        requires
            self@.wf(),
        ensures
            r matches Ok(tasks) && tasks_view(tasks@) == self@.listed(filter@).filter(
                |t: TaskView| !filter.ready || self@.is_ready(t),
            ) && (!filter.ready ==> tasks_view(tasks@) == self@.listed(filter@)) && forall|k: int|
                0 <= k < tasks@.len() ==> self@.describes(#[trigger] tasks@[k]),
    {
        let ghost view = self@;
        let ghost p = |t: TaskView| !filter.ready || view.is_ready(t);
        let mut rest = self.store.list_tasks(filter);
        let ghost all = tasks_view(rest@);
        let mut out: Vec<Task> = Vec::new();
        let mut n: usize = 0;
        let total = rest.len();
        proof {
            assert(all.take(0).filter(p) =~= Seq::empty());
            assert(tasks_view(out@) =~= Seq::empty());
            crate::order::lemma_sorted_members(
                self@.tasks.filter(|t: TaskView| view.selects(filter@, t)),
            );
            crate::model::lemma_filter_members(
                self@.tasks,
                |t: TaskView| view.selects(filter@, t),
            );
        }
        while rest.len() > 0
            invariant
                self@.wf(),
                view == self@,
                p == |t: TaskView| !filter.ready || view.is_ready(t),
                total == all.len(),
                n + rest@.len() == total,
                tasks_view(rest@) == all.skip(n as int),
                forall|k: int| 0 <= k < rest@.len() ==> self.store.is_hydrated(#[trigger] rest@[k]),
                forall|k: int| 0 <= k < all.len() ==> self@.tasks.contains(#[trigger] all[k]),
                tasks_view(out@) == all.take(n as int).filter(p),
                forall|k: int| 0 <= k < out@.len() ==> self@.describes(#[trigger] out@[k]),
            decreases rest@.len(),
        {
            proof {
                crate::store::lemma_filter_step(all, p, n as int);
                assert(all.skip(n as int)[0] == rest@[0]@);
            }
            let ghost before_rest = rest@;
            let task = rest.remove(0);
            proof {
                assert forall|k: int| 0 <= k < rest@.len() implies tasks_view(rest@)[k]
                    == all.skip(n + 1)[k] by {
                    assert(rest@[k] == before_rest[k + 1]);
                    assert(tasks_view(before_rest)[k + 1] == all.skip(n as int)[k + 1]);
                }
                assert(tasks_view(rest@) =~= all.skip(n + 1));
                assert(task == before_rest[0]);
                assert(tasks_view(before_rest)[0] == task@);
                assert(task@ == all[n as int]);
                assert(self@.tasks.contains(task@));
                let i = choose|i: int| 0 <= i < self@.tasks.len() && self@.tasks[i] == task@;
                crate::model::lemma_task_at(self@, i);
                assert forall|k: int| 0 <= k < rest@.len() implies self.store.is_hydrated(
                    #[trigger] rest@[k],
                ) by {
                    assert(rest@[k] == before_rest[k + 1]);
                }
            }
            let t = self.hydrate(task);
            if !filter.ready || (t.is_active_for_work() && !t.effectively_blocked) {
                let ghost before = out@;
                out.push(t);
                assert(tasks_view(out@) =~= tasks_view(before).push(all[n as int]));
            }
            n += 1;
        }
        proof {
            assert(all.take(n as int) =~= all);
            if !filter.ready {
                lemma_filter_keeps_all(all, p);
            }
        }
        Ok(out)
    }

    // ----- complete -----

    /// The store after the task `id` noted `learnings` and was completed,
    /// before anything is handed up.
    pub open spec fn completed_store(
        pre: StoreView,
        id: Seq<char>,
        result: Option<Seq<char>>,
        learnings: Seq<Seq<char>>,
        commit_sha: Option<Seq<char>>,
        ids: Seq<Seq<char>>,
        now: Timestamp,
    ) -> StoreView {
        let noted = pre.with_notes(id, learnings, ids, now);
        noted.with_task(pre.task(id).finished(result, commit_sha, now))
    }

    /// What `complete_with_learnings_at` answers and leaves behind.
    pub open spec fn complete_post(
        pre: StoreView,
        id: Seq<char>,
        result: Option<Seq<char>>,
        learnings: Seq<Seq<char>>,
        commit_sha: Option<Seq<char>>,
        ids: Seq<Seq<char>>,
        now: Timestamp,
        post: StoreView,
        r: Result<Task, OsError>,
    ) -> bool {
        let done = Self::completed_store(pre, id, result, learnings, commit_sha, ids, now);
        let parent = pre.task(id).parent_id;
        let n = learnings.len() as int;
        if !pre.contains(id) {
            pre.not_found(post, id, r)
        } else if pre.task(id).cancelled {
            r matches Err(OsError::CannotCompleteCancelled) && post == pre
        } else if pre.has_pending_children(id) {
            r matches Err(OsError::PendingChildren) && post == pre
        } else if ids.len() < n || !pre.fresh_learning_ids(ids) || (parent is Some && ids.len() - n
            < done.learnings_of(id).len()) {
            r matches Err(OsError::Database(_)) && post == pre
        } else {
            &&& r matches Ok(t)
            &&& t@ == pre.task(id).finished(result, commit_sha, now)
            &&& post.describes(t)
            &&& post == if parent is Some {
                done.bubbled(id, parent->0, ids.skip(n), now)
            } else {
                done
            }
        }
    }

    /// Completes a task at the time `now`.
    ///
    /// A cancelled task is refused. The task must have no child that is
    /// neither completed nor cancelled. Each of `learnings` is attached to
    /// the task as a learning
    /// of its own; the task is marked completed with `result` and
    /// `commit_sha`; then every learning of the task is handed up to its
    /// parent, if it has one. Blocker edges stay as they are.
    ///
    /// `ids` supplies the identifiers of the new learnings: the k-th
    /// learning gets the k-th of them, and the copy of the k-th learning
    /// that is handed up gets the k-th of those that follow. They must be
    /// enough, not taken, and all different.
    pub fn complete_with_learnings_at(
        &mut self,
        id: &TaskId,
        result: Option<&str>,
        learnings: &Vec<String>,
        commit_sha: Option<&str>,
        ids: &Vec<LearningId>,
        now: Timestamp,
    ) -> (r: Result<Task, OsError>)
        requires
            old(self)@.wf(),
        ensures
            final(self)@.wf(),
            Self::complete_post(
                old(self)@,
                id@,
                opt_text(result),
                strs_view(learnings@),
                opt_text(commit_sha),
                lids_view(ids@),
                now,
                final(self)@,
                r,
            ),
    {
        match self.store.get_task(id) {
            None => {
                return Err(OsError::TaskNotFound(id.clone()));
            },
            Some(stored) => {
                if stored.cancelled {
                    return Err(OsError::CannotCompleteCancelled);
                }
            },
        }
        if self.store.has_pending_children(id) {
            return Err(OsError::PendingChildren);
        }
        let ghost pre = self@;
        let ghost contents = strs_view(learnings@);
        let ghost supply = lids_view(ids@);
        let backup = self.store.copy();
        if let Err(e) = self.store.add_notes(id, learnings, ids, now) {
            return Err(e);
        }
        let ghost noted = self@;
        proof {
            crate::model::lemma_with_notes_wf(pre, id@, contents, supply, now);
            crate::model::lemma_same_tasks(pre, noted, id@);
            crate::model::lemma_task_of(pre, id@);
        }
        let task = match self.store.complete_task(id, result, commit_sha, now) {
            Ok(t) => t,
            Err(e) => {
                self.store = backup;
                return Err(e);
            },
        };
        let ghost done = self@;
        proof {
            crate::model::lemma_replaced(noted, noted.index_of(id@), task@, id@);
            crate::model::lemma_with_task_at(noted, noted.index_of(id@), task@);
        }
        if let Some(parent) = &task.parent_id {
            let items = self.store.list_learnings(id);
            let n = learnings.len();
            assert(learnings_view(items@).len() == items@.len());
            if ids.len() - n < items.len() {
                self.store = backup;
                return Err(
                    OsError::Database(String::from_str("no fresh identifier for a learning")),
                );
            }
            let mut rest: Vec<LearningId> = Vec::new();
            let mut k: usize = n;
            while k < ids.len()
                invariant
                    n <= k <= ids@.len(),
                    rest@.len() == k - n,
                    forall|j: int| 0 <= j < rest@.len() ==> rest@[j]@ == ids@[n + j]@,
                decreases ids@.len() - k,
            {
                rest.push(ids[k].clone());
                k += 1;
            }
            proof {
                assert(lids_view(rest@) =~= supply.skip(n as int));
                assert(done.contains(parent@)) by {
                    crate::model::lemma_ancestors_stored(done, id@);
                    assert(done.ancestors(id@)[0] == parent@);
                }
                assert(done.fresh_learning_ids(supply.skip(n as int))) by {
                    let later = supply.skip(n as int);
                    assert forall|j: int| 0 <= j < later.len() implies !done.has_learning(
                        #[trigger] later[j],
                    ) by {
                        assert(later[j] == supply[n + j]);
                        if done.has_learning(later[j]) {
                            assert(noted.has_learning(later[j]));
                            if !pre.has_learning(later[j]) {
                                let i = choose|i: int|
                                    0 <= i < contents.len() && supply[i] == later[j];
                                assert(supply[i] != supply[n + j]);
                            }
                        }
                    }
                    assert forall|a: int, b: int|
                        0 <= a < later.len() && 0 <= b < later.len() && a != b implies later[a]
                        != later[b] by {
                        assert(supply[n + a] != supply[n + b]);
                    }
                }
            }
            if let Err(e) = self.store.bubble_learnings(id, parent, &rest, now) {
                self.store = backup;
                return Err(e);
            }
            proof {
                crate::model::lemma_with_copies_wf(
                    done,
                    done.learnings_of(id@),
                    id@,
                    parent@,
                    supply.skip(n as int),
                    now,
                );
                crate::model::lemma_same_tasks(done, self@, id@);
            }
        }
        Ok(self.described(id))
    }

    /// The identifiers `ids` are what is drawn to complete the task `id`
    /// with `wanted` learnings: one for each new learning and one for each
    /// learning that the task then hands up, as far as a list can hold
    /// them, each of them well formed.
    pub open spec fn drawn_for(pre: StoreView, id: Seq<char>, wanted: nat, ids: Seq<Seq<char>>) -> bool {
        &&& ids.len() == if pre.learnings_of(id).len() + wanted + wanted <= usize::MAX {
            pre.learnings_of(id).len() + wanted + wanted
        } else {
            usize::MAX as nat
        }
        &&& forall|k: int| 0 <= k < ids.len() ==> LearningId::is_well_formed(#[trigger] ids[k])
    }

    /// The completion of the task `id` with `learnings` draws no
    /// identifier and is refused by nothing: the task is stored, not
    /// cancelled and has no pending child, holds no learning and is given
    /// none.
    pub open spec fn completes_for_sure(pre: StoreView, id: Seq<char>, learnings: Seq<Seq<char>>) -> bool {
        &&& pre.contains(id)
        &&& !pre.task(id).cancelled
        &&& !pre.has_pending_children(id)
        &&& learnings.len() == 0
        &&& pre.learnings_of(id).len() == 0
    }

    /// As many fresh learning identifiers as `count`.
    pub fn fresh_learning_ids(count: usize) -> (ids: Vec<LearningId>)
        ensures
            ids@.len() == count,
            forall|k: int| 0 <= k < ids@.len() ==> LearningId::is_well_formed(#[trigger] ids@[k]@),
    {
        let mut ids: Vec<LearningId> = Vec::new();
        let mut k: usize = 0;
        while k < count
            invariant
                k <= count,
                ids@.len() == k,
                forall|j: int| 0 <= j < ids@.len() ==> LearningId::is_well_formed(
                    #[trigger] ids@[j]@,
                ),
            decreases count - k,
        {
            ids.push(LearningId::new());
            k += 1;
        }
        ids
    }

    /// Fresh learning identifiers, enough to complete the task `id` with
    /// `wanted` learnings: one for each new learning, and one for each
    /// learning that the task then holds and hands up.
    pub fn learning_ids_for(&self, id: &TaskId, wanted: usize) -> (ids: Vec<LearningId>)
        ensures
            ids@.len() == if self@.learnings_of(id@).len() + wanted + wanted <= usize::MAX {
                self@.learnings_of(id@).len() + wanted + wanted
            } else {
                usize::MAX as int
            },
            forall|k: int| 0 <= k < ids@.len() ==> LearningId::is_well_formed(#[trigger] ids@[k]@),
            Self::drawn_for(self@, id@, wanted as nat, lids_view(ids@)),
    {
        let listed = self.store.list_learnings(id);
        assert(learnings_view(listed@).len() == listed@.len());
        let held = listed.len();
        let count = if held <= usize::MAX - wanted && wanted <= usize::MAX - wanted - held {
            held + wanted + wanted
        } else {
            usize::MAX
        };
        let ids = Self::fresh_learning_ids(count);
        assert forall|k: int| 0 <= k < lids_view(ids@).len() implies LearningId::is_well_formed(
            #[trigger] lids_view(ids@)[k],
        ) by {
            assert(lids_view(ids@)[k] == ids@[k]@);
        }
        ids
    }

    /// Completes a task at the current time, under fresh learning
    /// identifiers. See `complete_with_learnings_at`.
    pub fn complete_with_learnings(
        &mut self,
        id: &TaskId,
        result: Option<&str>,
        learnings: &Vec<String>,
        commit_sha: Option<&str>,
    ) -> (r: Result<Task, OsError>)
        requires
            old(self)@.wf(),
        ensures
            final(self)@.wf(),
            exists|ids: Seq<Seq<char>>, now: Timestamp|
                Self::drawn_for(old(self)@, id@, learnings@.len(), ids) && Self::complete_post(
                    old(self)@,
                    id@,
                    opt_text(result),
                    strs_view(learnings@),
                    opt_text(commit_sha),
                    ids,
                    now,
                    final(self)@,
                    r,
                ),
            Self::completes_for_sure(old(self)@, id@, strs_view(learnings@)) ==> r is Ok,
    {
        let ids = self.learning_ids_for(id, learnings.len());
        let now = Timestamp::now();
        let r = self.complete_with_learnings_at(id, result, learnings, commit_sha, &ids, now);
        proof {
            lemma_completes_for_sure(
                old(self)@,
                id@,
                opt_text(result),
                strs_view(learnings@),
                opt_text(commit_sha),
                lids_view(ids@),
                now,
                self@,
                r,
            );
        }
        assert(Self::drawn_for(old(self)@, id@, learnings@.len(), lids_view(ids@))
            && Self::complete_post(
            old(self)@,
            id@,
            opt_text(result),
            strs_view(learnings@),
            opt_text(commit_sha),
            lids_view(ids@),
            now,
            self@,
            r,
        ));
        r
    }

    /// Completes a task at the current time, without learnings and
    /// without a commit.
    pub fn complete(&mut self, id: &TaskId, result: Option<&str>) -> (r: Result<Task, OsError>)
        requires
            old(self)@.wf(),
        ensures
            final(self)@.wf(),
            exists|ids: Seq<Seq<char>>, now: Timestamp|
                Self::drawn_for(old(self)@, id@, 0, ids) && Self::complete_post(
                    old(self)@,
                    id@,
                    opt_text(result),
                    Seq::empty(),
                    None,
                    ids,
                    now,
                    final(self)@,
                    r,
                ),
            Self::completes_for_sure(old(self)@, id@, Seq::empty()) ==> r is Ok,
    {
        let none: Vec<String> = Vec::new();
        assert(strs_view(none@) =~= Seq::empty());
        self.complete_with_learnings(id, result, &none, None)
    }

    // ----- blocker edges -----

    /// What `add_blocker` answers and leaves behind.
    pub open spec fn add_blocker_post(
        pre: StoreView,
        task: Seq<char>,
        blocker: Seq<char>,
        post: StoreView,
        r: Result<Task, OsError>,
    ) -> bool {
        if !pre.contains(task) {
            pre.not_found(post, task, r)
        } else if pre.task(task).archived {
            r matches Err(OsError::CannotModifyArchived) && post == pre
        } else if !pre.contains(blocker) {
            r matches Err(OsError::BlockerNotFound(b)) && b@ == blocker && post == pre
        } else if task == blocker {
            r matches Err(e) && is_relation_error(e, BlockerRelationKind::Itself, task, blocker)
                && post == pre
        } else if pre.is_ancestor(blocker, task) {
            r matches Err(e) && is_relation_error(e, BlockerRelationKind::Ancestor, task, blocker)
                && post == pre
        } else if pre.is_ancestor(task, blocker) {
            r matches Err(e) && is_relation_error(
                e,
                BlockerRelationKind::Descendant,
                task,
                blocker,
            ) && post == pre
        } else if pre.reaches(blocker, task) {
            r matches Err(OsError::BlockerCycle) && post == pre
        } else {
            &&& r matches Ok(t)
            &&& t@.id == task
            &&& post.describes_fully(t)
            &&& post == pre.with_edge(task, blocker)
        }
    }

    /// Makes the task `task_id` wait for `blocker_id`. Adding an edge that
    /// is there already changes nothing.
    ///
    /// An archived task gets no blocker. The blocker must be stored, must
    /// not be the task, an ancestor or a descendant of it, and the edge
    /// must not close a cycle of blocker edges.
    pub fn add_blocker(&mut self, task_id: &TaskId, blocker_id: &TaskId) -> (r: Result<
        Task,
        OsError,
    >)
        requires
            old(self)@.wf(),
        ensures
            final(self)@.wf(),
            Self::add_blocker_post(old(self)@, task_id@, blocker_id@, final(self)@, r),
    {
        let task = match self.store.get_task(task_id) {
            Some(t) => t,
            None => {
                return Err(OsError::TaskNotFound(task_id.clone()));
            },
        };
        if task.archived {
            return Err(OsError::CannotModifyArchived);
        }
        if !self.store.task_exists(blocker_id) {
            return Err(OsError::BlockerNotFound(blocker_id.clone()));
        }
        if *task_id == *blocker_id {
            return Err(
                OsError::InvalidBlockerRelation {
                    kind: BlockerRelationKind::Itself,
                    message: String::from_str("Cannot block a task by itself"),
                    task_id: task_id.clone(),
                    blocker_id: blocker_id.clone(),
                },
            );
        }
        if self.store.is_ancestor(blocker_id, task_id) {
            return Err(
                OsError::InvalidBlockerRelation {
                    kind: BlockerRelationKind::Ancestor,
                    message: String::from_str("Cannot block a task by its ancestor"),
                    task_id: task_id.clone(),
                    blocker_id: blocker_id.clone(),
                },
            );
        }
        if self.store.is_ancestor(task_id, blocker_id) {
            return Err(
                OsError::InvalidBlockerRelation {
                    kind: BlockerRelationKind::Descendant,
                    message: String::from_str("Cannot block a task by its descendant"),
                    task_id: task_id.clone(),
                    blocker_id: blocker_id.clone(),
                },
            );
        }
        if would_create_blocker_cycle(&self.store, task_id, blocker_id) {
            return Err(OsError::BlockerCycle);
        }
        let ghost pre = self@;
        match self.store.add_blocker(task_id, blocker_id) {
            Err(e) => Err(e),
            Ok(()) => {
                proof {
                    crate::model::lemma_same_tasks(pre, self@, task_id@);
                }
                self.get(task_id)
            },
        }
    }

    /// What `remove_blocker` answers and leaves behind.
    pub open spec fn remove_blocker_post(
        pre: StoreView,
        task: Seq<char>,
        blocker: Seq<char>,
        post: StoreView,
        r: Result<Task, OsError>,
    ) -> bool {
        if !pre.contains(task) {
            pre.not_found(post, task, r)
        } else if pre.task(task).archived {
            r matches Err(OsError::CannotModifyArchived) && post == pre
        } else {
            &&& r matches Ok(t)
            &&& t@.id == task
            &&& post.describes_fully(t)
            &&& post == pre.without_edge(task, blocker)
        }
    }

    /// Removes the edge from `task_id` to `blocker_id`, if there is one. An
    /// archived task is not changed.
    pub fn remove_blocker(&mut self, task_id: &TaskId, blocker_id: &TaskId) -> (r: Result<
        Task,
        OsError,
    >)
        requires
            old(self)@.wf(),
        ensures
            final(self)@.wf(),
            Self::remove_blocker_post(old(self)@, task_id@, blocker_id@, final(self)@, r),
    {
        let task = match self.store.get_task(task_id) {
            Some(t) => t,
            None => {
                return Err(OsError::TaskNotFound(task_id.clone()));
            },
        };
        if task.archived {
            return Err(OsError::CannotModifyArchived);
        }
        let ghost pre = self@;
        self.store.remove_blocker(task_id, blocker_id);
        proof {
            crate::model::lemma_same_tasks(pre, self@, task_id@);
        }
        self.get(task_id)
    }

    /// What `is_effectively_blocked` answers for a task with these
    /// blockers under this parent.
    pub open spec fn blocked_through(
        s: StoreView,
        blocked_by: Seq<Seq<char>>,
        parent: Option<Seq<char>>,
        r: Result<bool, OsError>,
    ) -> bool {
        if exists|k: int| 0 <= k < blocked_by.len() && !s.satisfies(#[trigger] blocked_by[k]) {
            r matches Ok(true)
        } else if parent is None {
            r matches Ok(false)
        } else if !s.contains(parent->0) {
            r matches Err(OsError::TaskNotFound(missing)) && missing@ == parent->0
        } else {
            r matches Ok(b) && b == s.effectively_blocked(parent->0)
        }
    }

    /// Whether the task waits for a blocker: one of the blockers it
    /// carries is not satisfied, or its parent is effectively blocked.
    /// For a task as the store describes it this is whether the task is
    /// effectively blocked.
    pub fn is_effectively_blocked(&self, task: &Task) -> (r: Result<bool, OsError>)
        requires
            self@.wf(),
        ensures
            Self::blocked_through(self@, ids_view(task.blocked_by@), opt_id_view(task.parent_id), r),
    {
        let ghost all = ids_view(task.blocked_by@);
        let mut i: usize = 0;
        while i < task.blocked_by.len()
            invariant
                i <= task.blocked_by@.len(),
                self@.wf(),
                all == ids_view(task.blocked_by@),
                forall|k: int| 0 <= k < i ==> self@.satisfies(#[trigger] all[k]),
            decreases task.blocked_by@.len() - i,
        {
            if !self.store.is_task_satisfies_blocker(&task.blocked_by[i]) {
                assert(!self@.satisfies(all[i as int]));
                return Ok(true);
            }
            i += 1;
        }
        match &task.parent_id {
            None => Ok(false),
            Some(parent) => {
                if !self.store.task_exists(parent) {
                    return Err(OsError::TaskNotFound(parent.clone()));
                }
                Ok(self.store.effectively_blocked(parent))
            },
        }
    }
}

/// A completion that draws no identifier and is refused by nothing
/// succeeds.
pub proof fn lemma_completes_for_sure(
    pre: StoreView,
    id: Seq<char>,
    result: Option<Seq<char>>,
    learnings: Seq<Seq<char>>,
    commit_sha: Option<Seq<char>>,
    ids: Seq<Seq<char>>,
    now: Timestamp,
    post: StoreView,
    r: Result<Task, OsError>,
)
    requires
        TaskService::drawn_for(pre, id, learnings.len(), ids),
        TaskService::complete_post(pre, id, result, learnings, commit_sha, ids, now, post, r),
    ensures
        TaskService::completes_for_sure(pre, id, learnings) ==> r is Ok,
{
    if TaskService::completes_for_sure(pre, id, learnings) {
        let noted = pre.with_notes(id, learnings, ids, now);
        assert(noted == pre);
        let done = TaskService::completed_store(pre, id, result, learnings, commit_sha, ids, now);
        assert(done.learnings == pre.learnings);
        assert(done.learnings_of(id) == pre.learnings_of(id));
        assert(ids.len() == 0);
        assert(pre.fresh_learning_ids(ids));
    }
}

/// Completing a task keeps the forest and the blocker edges.
pub proof fn lemma_complete_keeps_forest(
    pre: StoreView,
    id: Seq<char>,
    result: Option<Seq<char>>,
    learnings: Seq<Seq<char>>,
    commit_sha: Option<Seq<char>>,
    ids: Seq<Seq<char>>,
    now: Timestamp,
    post: StoreView,
    r: Result<Task, OsError>,
)
    requires
        pre.wf(),
        TaskService::complete_post(pre, id, result, learnings, commit_sha, ids, now, post, r),
    ensures
        pre.same_forest(post),
        post.blockers == pre.blockers,
        pre.learnings.is_prefix_of(post.learnings),
        r is Err ==> post == pre,
        r is Ok ==> post.task(id).completed && forall|x: Seq<char>|
            pre.contains(x) && x != id ==> #[trigger] post.task(x) == pre.task(x),
        r is Ok ==> post.task(id) == pre.task(id).finished(result, commit_sha, now),
        r is Ok ==> forall|k: int|
            0 <= k < learnings.len() ==> post.has_note(id, Some(id), #[trigger] learnings[k]),
        r is Ok && pre.task(id).parent_id is Some ==> forall|k: int|
            0 <= k < learnings.len() ==> post.has_note(
                pre.task(id).parent_id->0,
                Some(id),
                #[trigger] learnings[k],
            ),
{
    if r is Ok {
        let noted = pre.with_notes(id, learnings, ids, now);
        let record = pre.task(id).finished(result, commit_sha, now);
        let done = noted.with_task(record);
        crate::model::lemma_with_notes_wf(pre, id, learnings, ids, now);
        crate::model::lemma_same_tasks(pre, noted, id);
        crate::model::lemma_task_of(pre, id);
        let i = noted.index_of(id);
        crate::model::lemma_with_task_at(noted, i, record);
        assert(pre.same_forest(done));
        assert forall|x: Seq<char>| pre.contains(x) && x != id implies #[trigger] done.task(x)
            == pre.task(x) by {
            crate::model::lemma_same_tasks(pre, noted, x);
        }
        if pre.task(id).parent_id is Some {
            let parent = pre.task(id).parent_id->0;
            let later = ids.skip(learnings.len() as int);
            assert(done.fresh_learning_ids(later)) by {
                assert forall|j: int| 0 <= j < later.len() implies !done.has_learning(
                    #[trigger] later[j],
                ) by {
                    assert(later[j] == ids[learnings.len() + j]);
                    if noted.has_learning(later[j]) {
                        if !pre.has_learning(later[j]) {
                            let k = choose|k: int| 0 <= k < learnings.len() && ids[k] == later[j];
                            assert(ids[k] != ids[learnings.len() + j]);
                        }
                    }
                }
                assert forall|a: int, b: int|
                    0 <= a < later.len() && 0 <= b < later.len() && a != b implies later[a]
                    != later[b] by {
                    assert(ids[learnings.len() + a] != ids[learnings.len() + b]);
                }
            }
            crate::model::lemma_with_copies_wf(
                done,
                done.learnings_of(id),
                id,
                parent,
                later,
                now,
            );
            assert forall|x: Seq<char>| #[trigger] post.task(x) == done.task(x) by {
                crate::model::lemma_same_tasks(done, post, x);
            }
            let items = done.learnings_of(id);
            let own = done.learnings.filter(|l: LearningView| l.task_id == id);
            assert(pre.contains(parent)) by {
                crate::model::lemma_ancestors_stored(pre, id);
                crate::model::lemma_ancestors_of_child(pre, id);
                assert(pre.ancestors(id)[0] == parent);
            }
            crate::model::lemma_same_forest(pre, done, parent);
            crate::model::lemma_with_copies_notes(done, items, id, parent, later, now);
            crate::model::lemma_filter_members(done.learnings, |l: LearningView| l.task_id == id);
            crate::order::lemma_by_time_members(own);
            assert forall|k: int| 0 <= k < learnings.len() implies post.has_note(
                parent,
                Some(id),
                #[trigger] learnings[k],
            ) by {
                assert(noted.has_note(id, Some(id), learnings[k]));
                let i = choose|i: int|
                    0 <= i < done.learnings.len() && (#[trigger] done.learnings[i]).task_id == id
                        && done.learnings[i].source_task_id == Some(id) && done.learnings[i].content
                        == learnings[k];
                assert(own.contains(done.learnings[i]));
                let a = choose|a: int| 0 <= a < own.len() && own[a] == done.learnings[i];
                assert(items.contains(own[a]));
                let j = choose|j: int| 0 <= j < items.len() && items[j] == own[a];
                assert(StoreView::handed_up(items[j], id, parent, later[j], now).source_task_id
                    == Some(id));
            }
        }
        assert(noted.learnings == done.learnings);
        assert(pre.learnings.is_prefix_of(post.learnings));
        assert forall|k: int| 0 <= k < learnings.len() implies post.has_note(
            id,
            Some(id),
            #[trigger] learnings[k],
        ) by {
            assert(noted.has_note(id, Some(id), learnings[k]));
            crate::model::lemma_prefix_keeps_notes(noted, post, id, Some(id), learnings[k]);
        }
    }
}

/// Filtering with a test that holds of every element keeps everything.
pub proof fn lemma_filter_keeps_all<A>(s: Seq<A>, p: spec_fn(A) -> bool)
    requires
        forall|i: int| 0 <= i < s.len() ==> p(#[trigger] s[i]),
    ensures
        s.filter(p) == s,
    decreases s.len(),
{
    reveal(Seq::filter);
    if s.len() > 0 {
        assert forall|i: int| 0 <= i < s.drop_last().len() implies p(#[trigger] s.drop_last()[i]) by {
            assert(s.drop_last()[i] == s[i]);
        }
        lemma_filter_keeps_all(s.drop_last(), p);
        assert(p(s[s.len() - 1]));
        assert(s =~= s.drop_last().push(s.last()));
    }
}

} // verus!
