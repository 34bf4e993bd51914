//! The mathematical model of the task store: the tasks, the blocker edges
//! and the learnings as sequences, and what is derived from them.

use vstd::prelude::*;

use crate::order::{by_time, sorted, task_lt};
use crate::types::{FilterView, LearningView, TaskView, Timestamp};

verus! {

/// A blocker edge: `task_id` waits for `blocker_id`.
pub struct BlockerView {
    pub task_id: Seq<char>,
    pub blocker_id: Seq<char>,
}

/// The contents of a store.
pub struct StoreView {
    pub tasks: Seq<TaskView>,
    pub blockers: Seq<BlockerView>,
    pub learnings: Seq<LearningView>,
}

/// `edges` with an edge from `task` to each of `blockers` in turn, each
/// added once.
pub open spec fn with_edges(
    edges: Seq<BlockerView>,
    task: Seq<char>,
    blockers: Seq<Seq<char>>,
) -> Seq<BlockerView>
    decreases blockers.len(),
{
    if blockers.len() == 0 {
        edges
    } else {
        let before = with_edges(edges, task, blockers.drop_last());
        let edge = BlockerView { task_id: task, blocker_id: blockers.last() };
        if before.contains(edge) {
            before
        } else {
            before.push(edge)
        }
    }
}

/// What `up` leads to from `id` in one, two and three steps.
pub open spec fn chain(up: spec_fn(Seq<char>) -> Option<Seq<char>>, id: Seq<char>) -> Seq<
    Seq<char>,
> {
    match up(id) {
        None => seq![],
        Some(p) => match up(p) {
            None => seq![p],
            Some(g) => match up(g) {
                None => seq![p, g],
                Some(h) => seq![p, g, h],
            },
        },
    }
}

/// Two functions that agree at `id` and along its chain give the same chain.
pub proof fn lemma_chain_agree(
    f: spec_fn(Seq<char>) -> Option<Seq<char>>,
    g: spec_fn(Seq<char>) -> Option<Seq<char>>,
    id: Seq<char>,
)
    requires
        f(id) == g(id),
        forall|k: int| 0 <= k < chain(f, id).len() ==> f(#[trigger] chain(f, id)[k]) == g(
            chain(f, id)[k],
        ),
    ensures
        chain(g, id) == chain(f, id),
{
    if f(id) is Some {
        let p = f(id)->0;
        assert(chain(f, id)[0] == p);
        if f(p) is Some {
            let q = f(p)->0;
            assert(chain(f, id)[1] == q);
            if f(q) is Some {
                assert(chain(f, id)[2] == f(q)->0);
            }
        }
    }
}

/// A chain of at most two steps is the first step followed by the chain
/// from there.
pub proof fn lemma_chain_step(f: spec_fn(Seq<char>) -> Option<Seq<char>>, id: Seq<char>)
    requires
        f(id) is Some,
        chain(f, id).len() <= 2,
    ensures
        chain(f, id) == seq![f(id)->0] + chain(f, f(id)->0),
{
    assert(chain(f, id) =~= seq![f(id)->0] + chain(f, f(id)->0));
}

/// The chains after the parent of `t` was set to `p`, where `p` is
/// neither `t` nor below it: a chain that does not pass through `t` is as
/// it was, and the chain of `t` is `p` followed by the chain of `p`.
pub proof fn lemma_chain_moved(
    f: spec_fn(Seq<char>) -> Option<Seq<char>>,
    g: spec_fn(Seq<char>) -> Option<Seq<char>>,
    t: Seq<char>,
    p: Seq<char>,
    x: Seq<char>,
)
    requires
        forall|y: Seq<char>| #[trigger] g(y) == if y == t {
            Some(p)
        } else {
            f(y)
        },
        p != t,
        !chain(f, p).contains(t),
        chain(f, p).len() <= 1,
    ensures
        x != t && !chain(f, x).contains(t) ==> chain(g, x) == chain(f, x),
        x == t ==> chain(g, x) == seq![p] + chain(f, p),
        x != t && f(x) == Some(t) && f(p) is None ==> chain(g, x) == seq![t, p],
{
    if x != t && !chain(f, x).contains(t) {
        assert forall|k: int| 0 <= k < chain(f, x).len() implies f(#[trigger] chain(f, x)[k]) == g(
            chain(f, x)[k],
        ) by {
            assert(chain(f, x).contains(chain(f, x)[k]));
        }
        lemma_chain_agree(f, g, x);
    }
    assert forall|k: int| 0 <= k < chain(f, p).len() implies f(#[trigger] chain(f, p)[k]) == g(
        chain(f, p)[k],
    ) by {
        assert(chain(f, p).contains(chain(f, p)[k]));
    }
    lemma_chain_agree(f, g, p);
    if x == t {
        assert(g(x) == Some(p));
        assert(chain(g, x) =~= seq![p] + chain(g, p));
    }
    if x != t && f(x) == Some(t) && f(p) is None {
        assert(g(x) == Some(t));
        assert(g(t) == Some(p));
        assert(g(p) is None);
        assert(chain(g, x) =~= seq![t, p]);
    }
}

/// The deepest level a task may be at: 0 for a milestone, 1 for a task,
/// 2 for a subtask.
pub open spec fn max_depth() -> int {
    2
}

impl StoreView {
    /// The store with nothing in it.
    pub open spec fn empty() -> StoreView {
        StoreView { tasks: Seq::empty(), blockers: Seq::empty(), learnings: Seq::empty() }
    }

    // ----- tasks by identifier -----

    /// A task with this identifier is stored.
    pub open spec fn contains(self, id: Seq<char>) -> bool {
        exists|i: int| 0 <= i < self.tasks.len() && (#[trigger] self.tasks[i]).id == id
    }

    /// Where the task with this identifier is stored.
    pub open spec fn index_of(self, id: Seq<char>) -> int {
        choose|i: int| 0 <= i < self.tasks.len() && (#[trigger] self.tasks[i]).id == id
    }

    /// The task with this identifier.
    pub open spec fn task(self, id: Seq<char>) -> TaskView {
        self.tasks[self.index_of(id)]
    }

    /// No two stored tasks share an identifier.
    pub open spec fn ids_unique(self) -> bool {
        forall|i: int, j: int|
            0 <= i < j < self.tasks.len() ==> (#[trigger] self.tasks[i]).id != (
            #[trigger] self.tasks[j]).id
    }

    // ----- the forest -----

    /// The parent of a task; `None` for a root and for an unknown identifier.
    pub open spec fn parent_of(self, id: Seq<char>) -> Option<Seq<char>> {
        if self.contains(id) {
            self.task(id).parent_id
        } else {
            None
        }
    }

    /// The parent of each identifier, as a function.
    pub open spec fn parents(self) -> spec_fn(Seq<char>) -> Option<Seq<char>> {
        |id: Seq<char>| self.parent_of(id)
    }

    /// The chain of ancestors, nearest first, followed for three steps: in
    /// a well-formed store no chain is longer than two.
    pub open spec fn ancestors(self, id: Seq<char>) -> Seq<Seq<char>> {
        chain(self.parents(), id)
    }

    /// The number of ancestors of a task.
    pub open spec fn depth(self, id: Seq<char>) -> int {
        self.ancestors(id).len() as int
    }

    /// `a` is an ancestor of `id`.
    pub open spec fn is_ancestor(self, a: Seq<char>, id: Seq<char>) -> bool {
        self.ancestors(id).contains(a)
    }

    /// The children of a task, in stored order.
    pub open spec fn children(self, id: Seq<char>) -> Seq<TaskView> {
        self.tasks.filter(|t: TaskView| t.parent_id == Some(id))
    }

    /// The children of a task, in traversal order.
    pub open spec fn children_ordered(self, id: Seq<char>) -> Seq<TaskView> {
        sorted(self.children(id))
    }

    /// The tasks without a parent, in traversal order.
    pub open spec fn roots(self) -> Seq<TaskView> {
        sorted(self.tasks.filter(|t: TaskView| t.parent_id is None))
    }

    /// The tasks that have `id` among their ancestors, in stored order.
    pub open spec fn descendants(self, id: Seq<char>) -> Seq<TaskView> {
        self.tasks.filter(|t: TaskView| self.is_ancestor(id, t.id))
    }

    /// Some child of the task is neither completed nor cancelled.
    pub open spec fn has_pending_children(self, id: Seq<char>) -> bool {
        exists|i: int|
            0 <= i < self.tasks.len() && (#[trigger] self.tasks[i]).parent_id == Some(id)
                && !self.tasks[i].is_finished_for_hierarchy()
    }

    /// How many levels lie below a task: 0 for a task without children.
    pub open spec fn subtree_height(self, id: Seq<char>) -> int {
        if exists|i: int|
            0 <= i < self.tasks.len() && (#[trigger] self.tasks[i]).parent_id is Some
                && self.parent_of(self.tasks[i].parent_id->0) == Some(id) {
            2
        } else if exists|i: int|
            0 <= i < self.tasks.len() && (#[trigger] self.tasks[i]).parent_id == Some(id) {
            1
        } else {
            0
        }
    }

    // ----- blockers -----

    /// The edge from `task` to `blocker` is stored.
    pub open spec fn has_edge(self, task: Seq<char>, blocker: Seq<char>) -> bool {
        exists|i: int|
            0 <= i < self.blockers.len() && (#[trigger] self.blockers[i]).task_id == task
                && self.blockers[i].blocker_id == blocker
    }

    /// The blockers of a task, in stored order.
    pub open spec fn blockers_of(self, id: Seq<char>) -> Seq<Seq<char>> {
        self.blockers.filter(|e: BlockerView| e.task_id == id).map_values(
            |e: BlockerView| e.blocker_id,
        )
    }

    /// The tasks that wait for `id`, in stored order.
    pub open spec fn blocked_by_it(self, id: Seq<char>) -> Seq<Seq<char>> {
        self.blockers.filter(|e: BlockerView| e.blocker_id == id).map_values(
            |e: BlockerView| e.task_id,
        )
    }

    /// The task `id` is stored, completed and not cancelled. An unknown
    /// identifier satisfies nothing.
    pub open spec fn satisfies(self, id: Seq<char>) -> bool {
        self.contains(id) && self.task(id).satisfies_blocker()
    }

    /// Every blocker of the task itself is satisfied.
    pub open spec fn own_unblocked(self, id: Seq<char>) -> bool {
        forall|i: int|
            0 <= i < self.blockers.len() && (#[trigger] self.blockers[i]).task_id == id
                ==> self.satisfies(self.blockers[i].blocker_id)
    }

    /// The blockers of the task that are not satisfied, in stored order.
    pub open spec fn unsatisfied_blockers(self, id: Seq<char>) -> Seq<Seq<char>> {
        self.blockers_of(id).filter(|b: Seq<char>| !self.satisfies(b))
    }

    /// Some ancestor of the task has a blocker that is not satisfied.
    pub open spec fn ancestor_blocked(self, id: Seq<char>) -> bool {
        exists|k: int|
            0 <= k < self.ancestors(id).len() && !self.own_unblocked(
                #[trigger] self.ancestors(id)[k],
            )
    }

    /// The task or one of its ancestors has a blocker that is not satisfied.
    pub open spec fn effectively_blocked(self, id: Seq<char>) -> bool {
        !self.own_unblocked(id) || self.ancestor_blocked(id)
    }

    // ----- listings -----

    /// The task is not completed and each of its blockers is stored and
    /// completed.
    pub open spec fn blockers_completed(self, t: TaskView) -> bool {
        &&& !t.completed
        &&& forall|i: int|
            0 <= i < self.blockers.len() && (#[trigger] self.blockers[i]).task_id == t.id
                ==> self.contains(self.blockers[i].blocker_id) && self.task(
                self.blockers[i].blocker_id,
            ).completed
    }

    /// The filter lets the task through.
    pub open spec fn selects(self, f: FilterView, t: TaskView) -> bool {
        &&& f.parent_id is Some ==> t.parent_id == f.parent_id
        &&& f.completed is Some ==> t.completed == f.completed->0
        &&& f.depth is Some ==> self.depth(t.id) == f.depth->0
        &&& f.archived is Some ==> t.archived == f.archived->0
        &&& f.ready ==> self.blockers_completed(t)
    }

    /// The tasks that the filter lets through, in traversal order.
    pub open spec fn listed(self, f: FilterView) -> Seq<TaskView> {
        sorted(self.tasks.filter(|t: TaskView| self.selects(f, t)))
    }

    /// The task is open for work and neither it nor an ancestor waits for
    /// a blocker.
    pub open spec fn is_ready(self, t: TaskView) -> bool {
        t.is_active_for_work() && !self.effectively_blocked(t.id)
    }

    /// The bookmarks of the task `id` and of the tasks below it, in stored
    /// order.
    pub open spec fn bookmarks_under(self, id: Seq<char>) -> Seq<Seq<char>> {
        self.tasks.filter(
            |t: TaskView| (t.id == id || self.is_ancestor(id, t.id)) && t.bookmark is Some,
        ).map_values(|t: TaskView| t.bookmark->0)
    }

    // ----- learnings -----

    /// A learning with this identifier is stored.
    pub open spec fn has_learning(self, id: Seq<char>) -> bool {
        exists|i: int| 0 <= i < self.learnings.len() && (#[trigger] self.learnings[i]).id == id
    }

    /// A learning of the given task, origin and content is stored.
    pub open spec fn has_note(
        self,
        task: Seq<char>,
        origin: Option<Seq<char>>,
        content: Seq<char>,
    ) -> bool {
        exists|i: int|
            0 <= i < self.learnings.len() && (#[trigger] self.learnings[i]).task_id == task
                && self.learnings[i].source_task_id == origin && self.learnings[i].content
                == content
    }

    /// The learnings attached to a task, oldest first.
    pub open spec fn learnings_of(self, id: Seq<char>) -> Seq<LearningView> {
        by_time(self.learnings.filter(|l: LearningView| l.task_id == id))
    }

    /// The learning with this identifier.
    pub open spec fn learning(self, id: Seq<char>) -> LearningView {
        self.learnings[choose|i: int|
            0 <= i < self.learnings.len() && (#[trigger] self.learnings[i]).id == id]
    }

    /// The stored learning of the given task, origin and content.
    pub open spec fn note(
        self,
        task: Seq<char>,
        origin: Option<Seq<char>>,
        content: Seq<char>,
    ) -> LearningView {
        self.learnings[choose|i: int|
            0 <= i < self.learnings.len() && (#[trigger] self.learnings[i]).task_id == task
                && self.learnings[i].source_task_id == origin && self.learnings[i].content
                == content]
    }

    /// The store with the learning `l`, unless its task is not stored or a
    /// learning with its task, origin and content is there already.
    pub open spec fn with_learning(self, l: LearningView) -> StoreView {
        if !self.contains(l.task_id) || self.has_note(l.task_id, l.source_task_id, l.content) {
            self
        } else {
            StoreView { learnings: self.learnings.push(l), ..self }
        }
    }

    /// The store without the learning `id`.
    pub open spec fn without_learning(self, id: Seq<char>) -> StoreView {
        StoreView { learnings: self.learnings.filter(|l: LearningView| l.id != id), ..self }
    }

    /// The copy of `l` that is handed up from `from` to `to`: the origin is
    /// kept, and is `from` where `l` names none.
    pub open spec fn handed_up(
        l: LearningView,
        from: Seq<char>,
        to: Seq<char>,
        id: Seq<char>,
        now: Timestamp,
    ) -> LearningView {
        LearningView {
            id: id,
            task_id: to,
            content: l.content,
            source_task_id: if l.source_task_id is Some {
                l.source_task_id
            } else {
                Some(from)
            },
            created_at: now,
        }
    }

    /// The store with a copy of each of `items` attached to `to`, the copy
    /// of the k-th under the k-th of `ids`.
    pub open spec fn with_copies(
        self,
        items: Seq<LearningView>,
        from: Seq<char>,
        to: Seq<char>,
        ids: Seq<Seq<char>>,
        now: Timestamp,
    ) -> StoreView
        decreases items.len(),
    {
        if items.len() == 0 {
            self
        } else {
            let k = items.len() - 1;
            self.with_copies(items.drop_last(), from, to, ids, now).with_learning(
                Self::handed_up(items[k], from, to, ids[k], now),
            )
        }
    }

    /// The learning that the task `task` notes itself: it is its own origin.
    pub open spec fn own_note(
        task: Seq<char>,
        content: Seq<char>,
        id: Seq<char>,
        now: Timestamp,
    ) -> LearningView {
        LearningView {
            id: id,
            task_id: task,
            content: content,
            source_task_id: Some(task),
            created_at: now,
        }
    }

    /// The store with each of `contents` noted by the task `task`, the
    /// k-th under the k-th of `ids`; what the task has noted before is not
    /// noted again.
    pub open spec fn with_notes(
        self,
        task: Seq<char>,
        contents: Seq<Seq<char>>,
        ids: Seq<Seq<char>>,
        now: Timestamp,
    ) -> StoreView
        decreases contents.len(),
    {
        if contents.len() == 0 {
            self
        } else {
            let k = contents.len() - 1;
            self.with_notes(task, contents.drop_last(), ids, now).with_learning(
                Self::own_note(task, contents[k], ids[k], now),
            )
        }
    }

    /// The store after the learnings of `from` were handed up to `to`.
    pub open spec fn bubbled(
        self,
        from: Seq<char>,
        to: Seq<char>,
        ids: Seq<Seq<char>>,
        now: Timestamp,
    ) -> StoreView {
        self.with_copies(self.learnings_of(from), from, to, ids, now)
    }

    /// None of `ids` is the identifier of a stored learning, and no two of
    /// them are the same.
    pub open spec fn fresh_learning_ids(self, ids: Seq<Seq<char>>) -> bool {
        &&& forall|k: int| 0 <= k < ids.len() ==> !self.has_learning(#[trigger] ids[k])
        &&& ids.no_duplicates()
    }

    // ----- well-formedness -----

    /// Every parent named by a task is stored.
    #[verifier::opaque]
    pub open spec fn parents_exist(self) -> bool {
        forall|i: int|
            0 <= i < self.tasks.len() && (#[trigger] self.tasks[i]).parent_id is Some
                ==> self.contains(self.tasks[i].parent_id->0)
    }

    /// No task lies deeper than a subtask. This also rules out a cycle of
    /// parent edges.
    #[verifier::opaque]
    pub open spec fn depth_bounded(self) -> bool {
        forall|i: int|
            0 <= i < self.tasks.len() ==> self.depth((#[trigger] self.tasks[i]).id) <= max_depth()
    }

    /// Both ends of every blocker edge are stored and differ, and no edge
    /// is stored twice.
    #[verifier::opaque]
    pub open spec fn blockers_ok(self) -> bool {
        &&& forall|i: int|
            0 <= i < self.blockers.len() ==> {
                &&& self.contains((#[trigger] self.blockers[i]).task_id)
                &&& self.contains(self.blockers[i].blocker_id)
                &&& self.blockers[i].task_id != self.blockers[i].blocker_id
            }
        &&& forall|i: int, j: int|
            0 <= i < j < self.blockers.len() ==> #[trigger] self.blockers[i]
                != #[trigger] self.blockers[j]
    }

    /// Every learning belongs to a stored task, no two learnings share an
    /// identifier, and no two share task, origin and content.
    #[verifier::opaque]
    pub open spec fn learnings_ok(self) -> bool {
        &&& forall|i: int|
            0 <= i < self.learnings.len() ==> self.contains((#[trigger] self.learnings[i]).task_id)
        &&& forall|i: int, j: int|
            0 <= i < j < self.learnings.len() ==> (#[trigger] self.learnings[i]).id != (
            #[trigger] self.learnings[j]).id
        &&& forall|i: int, j: int|
            0 <= i < j < self.learnings.len() ==> !({
                &&& (#[trigger] self.learnings[i]).task_id == (#[trigger] self.learnings[j]).task_id
                &&& self.learnings[i].source_task_id == self.learnings[j].source_task_id
                &&& self.learnings[i].content == self.learnings[j].content
            })
    }

    /// The invariant of the store.
    pub open spec fn wf(self) -> bool {
        &&& self.ids_unique()
        &&& self.parents_exist()
        &&& self.depth_bounded()
        &&& self.blockers_ok()
        &&& self.learnings_ok()
    }

    /// The first of `ids` that is not stored.
    pub open spec fn first_missing(self, ids: Seq<Seq<char>>) -> Option<Seq<char>>
        decreases ids.len(),
    {
        if ids.len() == 0 {
            None
        } else if !self.contains(ids[0]) {
            Some(ids[0])
        } else {
            self.first_missing(ids.skip(1))
        }
    }

    // ----- what the writes make of a store -----

    /// The store with `t` in the place of the task at `i`.
    pub open spec fn with_task_at(self, i: int, t: TaskView) -> StoreView {
        StoreView { tasks: self.tasks.update(i, t), ..self }
    }

    /// The store with `t` in the place of the task with its identifier.
    pub open spec fn with_task(self, t: TaskView) -> StoreView {
        self.with_task_at(self.index_of(t.id), t)
    }

    /// The store with the task `t` added, waiting for each of `blockers`.
    pub open spec fn inserted(self, t: TaskView, blockers: Seq<Seq<char>>) -> StoreView {
        StoreView {
            tasks: self.tasks.push(t),
            blockers: with_edges(self.blockers, t.id, blockers),
            ..self
        }
    }

    /// The store with the edge from `task` to `blocker`, added once.
    pub open spec fn with_edge(self, task: Seq<char>, blocker: Seq<char>) -> StoreView {
        StoreView { blockers: with_edges(self.blockers, task, seq![blocker]), ..self }
    }

    /// The store without the edge from `task` to `blocker`.
    pub open spec fn without_edge(self, task: Seq<char>, blocker: Seq<char>) -> StoreView {
        StoreView {
            blockers: self.blockers.filter(
                |e: BlockerView| !(e.task_id == task && e.blocker_id == blocker),
            ),
            ..self
        }
    }

    /// The store without the edges to `blocker`.
    pub open spec fn without_edges_to(self, blocker: Seq<char>) -> StoreView {
        StoreView {
            blockers: self.blockers.filter(|e: BlockerView| e.blocker_id != blocker),
            ..self
        }
    }

    /// The store with the task `id` and every task below it archived at
    /// `now`, but for those that were archived before.
    pub open spec fn with_subtree_archived(self, id: Seq<char>, now: Timestamp) -> StoreView {
        StoreView {
            tasks: self.tasks.map_values(
                |t: TaskView|
                    if (t.id == id || self.is_ancestor(id, t.id)) && !t.archived {
                        t.archived_now(now)
                    } else {
                        t
                    },
            ),
            ..self
        }
    }

    /// Every task below `id` is completed, cancelled or archived.
    pub open spec fn descendants_finished(self, id: Seq<char>) -> bool {
        forall|i: int|
            0 <= i < self.tasks.len() && self.is_ancestor(id, (#[trigger] self.tasks[i]).id)
                ==> !self.tasks[i].is_active_for_work()
    }

    /// The task `x` is neither `id` nor below it.
    pub open spec fn outside_subtree(self, id: Seq<char>, x: Seq<char>) -> bool {
        x != id && !self.is_ancestor(id, x)
    }

    /// The store without the task `id`, the tasks below it, the learnings
    /// of those tasks and every blocker edge that touches one of them.
    pub open spec fn without_subtree(self, id: Seq<char>) -> StoreView {
        StoreView {
            tasks: self.tasks.filter(|t: TaskView| self.outside_subtree(id, t.id)),
            blockers: self.blockers.filter(
                |e: BlockerView|
                    self.outside_subtree(id, e.task_id) && self.outside_subtree(id, e.blocker_id),
            ),
            learnings: self.learnings.filter(|l: LearningView| self.outside_subtree(id, l.task_id)),
        }
    }

    /// Making `parent` the parent of `id` would close a cycle of parent
    /// edges: `parent` is `id` or lies below it.
    pub open spec fn closes_parent_cycle(self, id: Seq<char>, parent: Seq<char>) -> bool {
        parent == id || self.is_ancestor(id, parent)
    }

    /// The task `id` with what lies below it fits under `parent`.
    pub open spec fn fits_under(self, id: Seq<char>, parent: Seq<char>) -> bool {
        self.depth(parent) + 1 + self.subtree_height(id) <= max_depth()
    }

    /// The two stores hold the same identifiers with the same parents, at
    /// the same places.
    pub open spec fn same_forest(self, other: StoreView) -> bool {
        &&& self.tasks.len() == other.tasks.len()
        &&& forall|i: int|
            0 <= i < self.tasks.len() ==> (#[trigger] self.tasks[i]).id == (
            #[trigger] other.tasks[i]).id && self.tasks[i].parent_id == other.tasks[i].parent_id
    }
}

/// In a store with unique identifiers the task stored at `i` is the task
/// with its identifier.
pub proof fn lemma_task_at(s: StoreView, i: int)
    requires
        s.ids_unique(),
        0 <= i < s.tasks.len(),
    ensures
        s.contains(s.tasks[i].id),
        s.index_of(s.tasks[i].id) == i,
        s.task(s.tasks[i].id) == s.tasks[i],
{
    reveal(StoreView::parents_exist);
    reveal(StoreView::depth_bounded);
    reveal(StoreView::blockers_ok);
    reveal(StoreView::learnings_ok);
    let id = s.tasks[i].id;
    let k = s.index_of(id);
    assert(0 <= k < s.tasks.len() && s.tasks[k].id == id);
    if k < i {
        assert(s.tasks[k].id != s.tasks[i].id);
    } else if i < k {
        assert(s.tasks[i].id != s.tasks[k].id);
    }
}

/// A stored identifier has a place, and its task carries it.
pub proof fn lemma_task_of(s: StoreView, id: Seq<char>)
    requires
        s.contains(id),
    ensures
        0 <= s.index_of(id) < s.tasks.len(),
        s.task(id).id == id,
        s.tasks[s.index_of(id)] == s.task(id),
{
    reveal(StoreView::parents_exist);
    reveal(StoreView::depth_bounded);
    reveal(StoreView::blockers_ok);
    reveal(StoreView::learnings_ok);
}

/// Stores with the same forest agree on membership, parents, ancestors and
/// depth.
pub proof fn lemma_same_forest(a: StoreView, b: StoreView, id: Seq<char>)
    requires
        a.same_forest(b),
        a.ids_unique(),
    ensures
        b.ids_unique(),
        a.contains(id) == b.contains(id),
        a.contains(id) ==> a.index_of(id) == b.index_of(id),
        a.parent_of(id) == b.parent_of(id),
{
    reveal(StoreView::parents_exist);
    reveal(StoreView::depth_bounded);
    reveal(StoreView::blockers_ok);
    reveal(StoreView::learnings_ok);
    assert(b.ids_unique()) by {
        assert forall|i: int, j: int| 0 <= i < j < b.tasks.len() implies (#[trigger] b.tasks[i]).id
            != (#[trigger] b.tasks[j]).id by {
            assert(a.tasks[i].id != a.tasks[j].id);
        }
    }
    if a.contains(id) {
        let i = a.index_of(id);
        assert(b.tasks[i].id == id);
        lemma_task_at(b, i);
    }
    if b.contains(id) {
        let i = b.index_of(id);
        assert(a.tasks[i].id == id);
        lemma_task_at(a, i);
    }
}

/// Stores with the same forest have the same ancestors everywhere.
pub proof fn lemma_same_forest_ancestors(a: StoreView, b: StoreView, id: Seq<char>)
    requires
        a.same_forest(b),
        a.ids_unique(),
    ensures
        a.ancestors(id) == b.ancestors(id),
        a.depth(id) == b.depth(id),
{
    reveal(StoreView::parents_exist);
    reveal(StoreView::depth_bounded);
    reveal(StoreView::blockers_ok);
    reveal(StoreView::learnings_ok);
    lemma_same_forest(a, b, id);
    if a.parent_of(id) is Some {
        let p = a.parent_of(id)->0;
        lemma_same_forest(a, b, p);
        if a.parent_of(p) is Some {
            lemma_same_forest(a, b, a.parent_of(p)->0);
        }
    }
}

/// The ancestors of a child are its parent followed by the ancestors of
/// the parent, as long as the chain stays within the depth bound.
pub proof fn lemma_ancestors_of_child(s: StoreView, id: Seq<char>)
    requires
        s.parent_of(id) is Some,
        s.depth(id) <= max_depth(),
    ensures
        s.ancestors(id) == seq![s.parent_of(id)->0] + s.ancestors(s.parent_of(id)->0),
        s.depth(id) == 1 + s.depth(s.parent_of(id)->0),
{
    reveal(StoreView::parents_exist);
    reveal(StoreView::depth_bounded);
    reveal(StoreView::blockers_ok);
    reveal(StoreView::learnings_ok);
    let p = s.parent_of(id)->0;
    assert(s.ancestors(id) =~= seq![p] + s.ancestors(p));
}

} // verus!

verus! {

/// Replacing a task by one with the same identifier and parent keeps the
/// forest, the edges and the invariant.
pub proof fn lemma_with_task_at(s: StoreView, i: int, t: TaskView)
    requires
        s.wf(),
        0 <= i < s.tasks.len(),
        t.id == s.tasks[i].id,
        t.parent_id == s.tasks[i].parent_id,
    ensures
        s.with_task_at(i, t).wf(),
        s.same_forest(s.with_task_at(i, t)),
        s.with_task_at(i, t) == s.with_task(t),
        s.with_task(t).task(t.id) == t,
        forall|id: Seq<char>| #[trigger] s.with_task(t).contains(id) == s.contains(id),
        forall|id: Seq<char>|
            s.contains(id) && id != t.id ==> #[trigger] s.with_task(t).task(id) == s.task(id),
{
    reveal(StoreView::parents_exist);
    reveal(StoreView::depth_bounded);
    reveal(StoreView::blockers_ok);
    reveal(StoreView::learnings_ok);
    let n = s.with_task_at(i, t);
    lemma_task_at(s, i);
    assert(s.same_forest(n));
    lemma_same_forest(s, n, t.id);
    assert forall|id: Seq<char>| #[trigger] n.contains(id) == s.contains(id) by {
        lemma_same_forest(s, n, id);
    }
    assert forall|id: Seq<char>| s.contains(id) && id != t.id implies #[trigger] n.task(id)
        == s.task(id) by {
        lemma_same_forest(s, n, id);
        lemma_task_of(s, id);
    }
    lemma_task_at(n, i);
    assert forall|k: int| 0 <= k < n.tasks.len() implies n.depth((#[trigger] n.tasks[k]).id)
        <= max_depth() by {
        lemma_same_forest_ancestors(s, n, s.tasks[k].id);
    }
    assert(n.parents_exist()) by {
        assert forall|k: int|
            0 <= k < n.tasks.len() && (#[trigger] n.tasks[k]).parent_id is Some implies n.contains(
            n.tasks[k].parent_id->0,
        ) by {
            assert(s.tasks[k].parent_id == n.tasks[k].parent_id);
            assert(s.contains(s.tasks[k].parent_id->0));
        }
    }
    assert(n.blockers_ok());
    assert(n.learnings_ok());
}

} // verus!

verus! {

/// What `with_edges` adds: the old edges stay in place at the front, and
/// every edge behind them leads from `task` to one of `blockers`; no edge
/// is added twice.
pub proof fn lemma_with_edges(edges: Seq<BlockerView>, task: Seq<char>, blockers: Seq<Seq<char>>)
    ensures
        edges.len() <= with_edges(edges, task, blockers).len(),
        with_edges(edges, task, blockers).take(edges.len() as int) == edges,
        forall|k: int|
            edges.len() <= k < with_edges(edges, task, blockers).len() ==> {
                &&& (#[trigger] with_edges(edges, task, blockers)[k]).task_id == task
                &&& blockers.contains(with_edges(edges, task, blockers)[k].blocker_id)
                &&& !edges.contains(with_edges(edges, task, blockers)[k])
            },
        forall|k: int, l: int|
            edges.len() <= k < l < with_edges(edges, task, blockers).len() ==> #[trigger] with_edges(
                edges,
                task,
                blockers,
            )[k] != #[trigger] with_edges(edges, task, blockers)[l],
        forall|b: Seq<char>|
            blockers.contains(b) ==> with_edges(edges, task, blockers).contains(
                BlockerView { task_id: task, blocker_id: b },
            ),
    decreases blockers.len(),
{
    let out = with_edges(edges, task, blockers);
    if blockers.len() == 0 {
        assert(out.take(edges.len() as int) =~= edges);
    } else {
        let rest = blockers.drop_last();
        let before = with_edges(edges, task, rest);
        lemma_with_edges(edges, task, rest);
        let edge = BlockerView { task_id: task, blocker_id: blockers.last() };
        assert(out.take(edges.len() as int) =~= before.take(edges.len() as int));
        assert forall|k: int| edges.len() <= k < out.len() implies {
            &&& (#[trigger] out[k]).task_id == task
            &&& blockers.contains(out[k].blocker_id)
            &&& !edges.contains(out[k])
        } by {
            if k < before.len() {
                assert(out[k] == before[k]);
                let b = before[k].blocker_id;
                assert(rest.contains(b));
                let j = choose|j: int| 0 <= j < rest.len() && rest[j] == b;
                assert(blockers[j] == b);
            } else {
                assert(out[k] == edge);
                assert(blockers[blockers.len() - 1] == edge.blocker_id);
                if edges.contains(edge) {
                    let j = choose|j: int| 0 <= j < edges.len() && edges[j] == edge;
                    assert(before.take(edges.len() as int)[j] == edge);
                    assert(before[j] == edge);
                }
            }
        }
        assert forall|b: Seq<char>| blockers.contains(b) implies out.contains(
            BlockerView { task_id: task, blocker_id: b },
        ) by {
            let want = BlockerView { task_id: task, blocker_id: b };
            let j = choose|j: int| 0 <= j < blockers.len() && blockers[j] == b;
            if j < rest.len() {
                assert(rest[j] == b);
                assert(rest.contains(b));
                assert(before.contains(want));
                let k = choose|k: int| 0 <= k < before.len() && before[k] == want;
                assert(out[k] == want);
            } else {
                assert(want == edge);
                if before.contains(edge) {
                } else {
                    assert(out[out.len() - 1] == edge);
                }
            }
        }
    }
}

/// Adding a task with a fresh identifier changes nothing for the tasks that
/// were there.
pub proof fn lemma_push_keeps(s: StoreView, n: StoreView, t: TaskView, id: Seq<char>)
    requires
        s.ids_unique(),
        !s.contains(t.id),
        n.tasks == s.tasks.push(t),
    ensures
        n.ids_unique(),
        n.contains(id) == (s.contains(id) || id == t.id),
        s.contains(id) ==> n.task(id) == s.task(id) && n.parent_of(id) == s.parent_of(id),
        n.task(t.id) == t,
        n.parent_of(t.id) == t.parent_id,
{
    reveal(StoreView::parents_exist);
    reveal(StoreView::depth_bounded);
    reveal(StoreView::blockers_ok);
    reveal(StoreView::learnings_ok);
    assert(n.ids_unique()) by {
        assert forall|i: int, j: int| 0 <= i < j < n.tasks.len() implies (#[trigger] n.tasks[i]).id
            != (#[trigger] n.tasks[j]).id by {
            if j < s.tasks.len() {
                assert(s.tasks[i].id != s.tasks[j].id);
            } else {
                assert(s.tasks[i].id != t.id);
            }
        }
    }
    let last = s.tasks.len() as int;
    assert(n.tasks[last] == t);
    lemma_task_at(n, last);
    if s.contains(id) {
        let i = s.index_of(id);
        assert(n.tasks[i] == s.tasks[i]);
        lemma_task_at(n, i);
    }
    if n.contains(id) && id != t.id {
        let i = n.index_of(id);
        assert(i < s.tasks.len());
        assert(s.tasks[i].id == id);
    }
}

/// Adding a task with a fresh identifier keeps the ancestors of the tasks
/// that were there.
pub proof fn lemma_push_keeps_ancestors(s: StoreView, n: StoreView, t: TaskView, id: Seq<char>)
    requires
        s.ids_unique(),
        s.parents_exist(),
        !s.contains(t.id),
        n.tasks == s.tasks.push(t),
        s.contains(id),
    ensures
        n.ancestors(id) == s.ancestors(id),
{
    reveal(StoreView::parents_exist);
    reveal(StoreView::depth_bounded);
    reveal(StoreView::blockers_ok);
    reveal(StoreView::learnings_ok);
    lemma_push_keeps(s, n, t, id);
    lemma_task_of(s, id);
    if s.parent_of(id) is Some {
        let p = s.parent_of(id)->0;
        assert(s.contains(p));
        lemma_push_keeps(s, n, t, p);
        lemma_task_of(s, p);
        if s.parent_of(p) is Some {
            let g = s.parent_of(p)->0;
            assert(s.contains(g));
            lemma_push_keeps(s, n, t, g);
            lemma_task_of(s, g);
            if s.parent_of(g) is Some {
                assert(s.contains(s.parent_of(g)->0));
            }
        }
    }
}

/// The hypotheses under which a task can be added to a store.
pub open spec fn can_insert(s: StoreView, t: TaskView, blockers: Seq<Seq<char>>) -> bool {
    &&& s.wf()
    &&& !s.contains(t.id)
    &&& t.parent_id is Some ==> s.contains(t.parent_id->0) && s.depth(t.parent_id->0) < max_depth()
    &&& forall|k: int| 0 <= k < blockers.len() ==> s.contains(#[trigger] blockers[k])
}

proof fn lemma_inserted_parents(s: StoreView, t: TaskView, blockers: Seq<Seq<char>>)
    requires
        can_insert(s, t, blockers),
    ensures
        s.inserted(t, blockers).ids_unique(),
        s.inserted(t, blockers).parents_exist(),
{
    reveal(StoreView::parents_exist);
    reveal(StoreView::depth_bounded);
    reveal(StoreView::blockers_ok);
    reveal(StoreView::learnings_ok);
    let n = s.inserted(t, blockers);
    lemma_push_keeps(s, n, t, t.id);
    assert forall|i: int|
        0 <= i < n.tasks.len() && (#[trigger] n.tasks[i]).parent_id is Some implies n.contains(
        n.tasks[i].parent_id->0,
    ) by {
        let p = n.tasks[i].parent_id->0;
        if i < s.tasks.len() {
            assert(n.tasks[i] == s.tasks[i]);
            assert(s.contains(p));
        }
        lemma_push_keeps(s, n, t, p);
    }
}

proof fn lemma_inserted_depth_new(s: StoreView, n: StoreView, t: TaskView)
    requires
        s.ids_unique(),
        s.parents_exist(),
        !s.contains(t.id),
        n.tasks == s.tasks.push(t),
        t.parent_id is Some ==> s.contains(t.parent_id->0) && s.depth(t.parent_id->0) < max_depth(),
    ensures
        n.depth(t.id) == if t.parent_id is Some {
            s.depth(t.parent_id->0) + 1
        } else {
            0
        },
{
    reveal(StoreView::parents_exist);
    reveal(StoreView::depth_bounded);
    reveal(StoreView::blockers_ok);
    reveal(StoreView::learnings_ok);
    lemma_push_keeps(s, n, t, t.id);
    if t.parent_id is Some {
        let p = t.parent_id->0;
        lemma_push_keeps_ancestors(s, n, t, p);
        assert(n.parent_of(t.id) == Some(p));
        assert(n.ancestors(p).len() < 2);
        assert(n.ancestors(t.id) =~= seq![p] + n.ancestors(p));
    }
}

proof fn lemma_inserted_depth(s: StoreView, t: TaskView, blockers: Seq<Seq<char>>)
    requires
        can_insert(s, t, blockers),
    ensures
        s.inserted(t, blockers).depth_bounded(),
        s.inserted(t, blockers).depth(t.id) == if t.parent_id is Some {
            s.depth(t.parent_id->0) + 1
        } else {
            0
        },
{
    reveal(StoreView::parents_exist);
    reveal(StoreView::depth_bounded);
    reveal(StoreView::blockers_ok);
    reveal(StoreView::learnings_ok);
    let n = s.inserted(t, blockers);
    lemma_inserted_depth_new(s, n, t);
    assert forall|i: int| 0 <= i < n.tasks.len() implies n.depth((#[trigger] n.tasks[i]).id)
        <= max_depth() by {
        if i < s.tasks.len() {
            assert(n.tasks[i] == s.tasks[i]);
            lemma_task_at(s, i);
            lemma_push_keeps_ancestors(s, n, t, s.tasks[i].id);
            assert(s.depth(s.tasks[i].id) <= max_depth());
        } else {
            assert(n.tasks[i] == t);
        }
    }
}

proof fn lemma_inserted_blockers(s: StoreView, t: TaskView, blockers: Seq<Seq<char>>)
    requires
        s.ids_unique(),
        s.blockers_ok(),
        !s.contains(t.id),
        forall|k: int| 0 <= k < blockers.len() ==> s.contains(#[trigger] blockers[k]),
    ensures
        s.inserted(t, blockers).blockers_ok(),
{
    reveal(StoreView::parents_exist);
    reveal(StoreView::depth_bounded);
    reveal(StoreView::blockers_ok);
    reveal(StoreView::learnings_ok);
    let n = s.inserted(t, blockers);
    let old_len = s.blockers.len() as int;
    let edges = n.blockers;
    lemma_with_edges(s.blockers, t.id, blockers);
    assert(edges.take(old_len) == s.blockers);
    assert forall|i: int| 0 <= i < edges.len() implies {
        &&& n.contains((#[trigger] edges[i]).task_id)
        &&& n.contains(edges[i].blocker_id)
        &&& edges[i].task_id != edges[i].blocker_id
    } by {
        if i < old_len {
            assert(edges.take(old_len)[i] == s.blockers[i]);
            assert(s.contains(s.blockers[i].task_id));
            lemma_push_keeps(s, n, t, s.blockers[i].task_id);
            lemma_push_keeps(s, n, t, s.blockers[i].blocker_id);
        } else {
            let b = edges[i].blocker_id;
            assert(blockers.contains(b));
            let k = choose|k: int| 0 <= k < blockers.len() && blockers[k] == b;
            assert(s.contains(blockers[k]));
            lemma_push_keeps(s, n, t, b);
            lemma_push_keeps(s, n, t, t.id);
        }
    }
    assert forall|i: int, j: int| 0 <= i < j < edges.len() implies #[trigger] edges[i]
        != #[trigger] edges[j] by {
        if j < old_len {
            assert(edges.take(old_len)[i] == s.blockers[i]);
            assert(edges.take(old_len)[j] == s.blockers[j]);
            assert(s.blockers[i] != s.blockers[j]);
        } else if i < old_len {
            assert(edges.take(old_len)[i] == s.blockers[i]);
            assert(s.blockers.contains(s.blockers[i]));
            assert(!s.blockers.contains(edges[j]));
        }
    }
}

proof fn lemma_inserted_learnings(s: StoreView, t: TaskView, blockers: Seq<Seq<char>>)
    requires
        can_insert(s, t, blockers),
    ensures
        s.inserted(t, blockers).learnings_ok(),
{
    reveal(StoreView::parents_exist);
    reveal(StoreView::depth_bounded);
    reveal(StoreView::blockers_ok);
    reveal(StoreView::learnings_ok);
    let n = s.inserted(t, blockers);
    assert forall|i: int| 0 <= i < n.learnings.len() implies n.contains(
        (#[trigger] n.learnings[i]).task_id,
    ) by {
        lemma_push_keeps(s, n, t, s.learnings[i].task_id);
    }
}

/// A task with a fresh identifier, under no parent or under a stored parent
/// that is not a subtask, waiting for stored tasks, can be added.
pub proof fn lemma_inserted_wf(s: StoreView, t: TaskView, blockers: Seq<Seq<char>>)
    requires
        can_insert(s, t, blockers),
    ensures
        s.inserted(t, blockers).wf(),
        s.inserted(t, blockers).depth(t.id) == if t.parent_id is Some {
            s.depth(t.parent_id->0) + 1
        } else {
            0
        },
{
    reveal(StoreView::parents_exist);
    reveal(StoreView::depth_bounded);
    reveal(StoreView::blockers_ok);
    reveal(StoreView::learnings_ok);
    lemma_inserted_parents(s, t, blockers);
    lemma_inserted_depth(s, t, blockers);
    lemma_inserted_blockers(s, t, blockers);
    lemma_inserted_learnings(s, t, blockers);
}

} // verus!

verus! {

/// Nothing is missing exactly where every identifier is stored.
pub proof fn lemma_first_missing(s: StoreView, ids: Seq<Seq<char>>)
    ensures
        s.first_missing(ids) is None <==> forall|k: int|
            0 <= k < ids.len() ==> s.contains(#[trigger] ids[k]),
        s.first_missing(ids) matches Some(b) ==> ids.contains(b) && !s.contains(b),
    decreases ids.len(),
{
    reveal(StoreView::parents_exist);
    reveal(StoreView::depth_bounded);
    reveal(StoreView::blockers_ok);
    reveal(StoreView::learnings_ok);
    if ids.len() > 0 {
        let rest = ids.skip(1);
        lemma_first_missing(s, rest);
        if s.contains(ids[0]) {
            if s.first_missing(rest) is None {
                assert forall|k: int| 0 <= k < ids.len() implies s.contains(#[trigger] ids[k]) by {
                    if k > 0 {
                        assert(rest[k - 1] == ids[k]);
                    }
                }
            } else {
                let b = s.first_missing(rest)->0;
                let j = choose|j: int| 0 <= j < rest.len() && rest[j] == b;
                assert(ids[j + 1] == b);
            }
        } else {
            assert(ids[0] == ids[0]);
        }
        if forall|k: int| 0 <= k < ids.len() ==> s.contains(#[trigger] ids[k]) {
            assert forall|k: int| 0 <= k < rest.len() implies s.contains(#[trigger] rest[k]) by {
                assert(rest[k] == ids[k + 1]);
            }
            assert(s.contains(ids[0]));
        }
    }
}

} // verus!

verus! {

/// What is kept of a sequence comes from it and passes the test, and what
/// passes the test is kept.
pub proof fn lemma_filter_members<A>(s: Seq<A>, p: spec_fn(A) -> bool)
    ensures
        forall|k: int|
            0 <= k < s.filter(p).len() ==> p(#[trigger] s.filter(p)[k]) && s.contains(
                s.filter(p)[k],
            ),
        forall|i: int| 0 <= i < s.len() && p(#[trigger] s[i]) ==> s.filter(p).contains(s[i]),
        s.filter(p).len() <= s.len(),
    decreases s.len(),
{
    reveal(Seq::filter);
    let out = s.filter(p);
    if s.len() > 0 {
        let rest = s.drop_last();
        let kept = rest.filter(p);
        lemma_filter_members(rest, p);
        assert forall|k: int| 0 <= k < out.len() implies p(#[trigger] out[k]) && s.contains(
            out[k],
        ) by {
            if k < kept.len() {
                assert(out[k] == kept[k]);
                assert(rest.contains(kept[k]));
                let j = choose|j: int| 0 <= j < rest.len() && rest[j] == kept[k];
                assert(s[j] == out[k]);
            } else {
                assert(out[k] == s.last());
                assert(s[s.len() - 1] == out[k]);
            }
        }
        assert forall|i: int| 0 <= i < s.len() && p(#[trigger] s[i]) implies out.contains(
            s[i],
        ) by {
            if i == s.len() - 1 {
                assert(out[out.len() - 1] == s[i]);
            } else {
                assert(rest[i] == s[i]);
                assert(kept.contains(rest[i]));
                let j = choose|j: int| 0 <= j < kept.len() && kept[j] == s[i];
                assert(out[j] == s[i]);
            }
        }
    }
}

/// A sequence without repetitions has none after filtering.
pub proof fn lemma_filter_no_duplicates<A>(s: Seq<A>, p: spec_fn(A) -> bool)
    requires
        s.no_duplicates(),
    ensures
        s.filter(p).no_duplicates(),
    decreases s.len(),
{
    reveal(Seq::filter);
    if s.len() > 0 {
        let rest = s.drop_last();
        lemma_filter_no_duplicates(rest, p);
        lemma_filter_members(rest, p);
        if p(s.last()) {
            let kept = rest.filter(p);
            assert(s.filter(p) == kept.push(s.last()));
            assert forall|i: int, j: int|
                0 <= i < kept.len() + 1 && 0 <= j < kept.len() + 1 && i != j implies kept.push(
                s.last(),
            )[i] != kept.push(s.last())[j] by {
                if i < kept.len() && j < kept.len() {
                } else if i < kept.len() {
                    assert(rest.contains(kept[i]));
                    let k = choose|k: int| 0 <= k < rest.len() && rest[k] == kept[i];
                    assert(s[k] == kept[i]);
                } else {
                    assert(rest.contains(kept[j]));
                    let k = choose|k: int| 0 <= k < rest.len() && rest[k] == kept[j];
                    assert(s[k] == kept[j]);
                }
            }
        }
    }
}

/// Dropping blocker edges keeps the invariant.
pub proof fn lemma_edges_filtered_wf(s: StoreView, p: spec_fn(BlockerView) -> bool)
    requires
        s.wf(),
    ensures
        (StoreView { blockers: s.blockers.filter(p), ..s }).wf(),
        s.same_forest(StoreView { blockers: s.blockers.filter(p), ..s }),
{
    reveal(StoreView::parents_exist);
    reveal(StoreView::depth_bounded);
    reveal(StoreView::blockers_ok);
    reveal(StoreView::learnings_ok);
    let n = StoreView { blockers: s.blockers.filter(p), ..s };
    lemma_filter_members(s.blockers, p);
    assert(s.blockers.no_duplicates());
    lemma_filter_no_duplicates(s.blockers, p);
    assert forall|i: int| 0 <= i < n.blockers.len() implies {
        &&& n.contains((#[trigger] n.blockers[i]).task_id)
        &&& n.contains(n.blockers[i].blocker_id)
        &&& n.blockers[i].task_id != n.blockers[i].blocker_id
    } by {
        let e = n.blockers[i];
        assert(s.blockers.contains(e));
        let k = choose|k: int| 0 <= k < s.blockers.len() && s.blockers[k] == e;
        assert(s.contains(s.blockers[k].task_id));
    }
}

/// What adding one edge does to the edges.
pub proof fn lemma_with_edge_edges(s: StoreView, task: Seq<char>, blocker: Seq<char>)
    ensures
        s.with_edge(task, blocker).blockers == if s.has_edge(task, blocker) {
            s.blockers
        } else {
            s.blockers.push(BlockerView { task_id: task, blocker_id: blocker })
        },
        s.with_edge(task, blocker).has_edge(task, blocker),
{
    reveal(StoreView::parents_exist);
    reveal(StoreView::depth_bounded);
    reveal(StoreView::blockers_ok);
    reveal(StoreView::learnings_ok);
    let n = s.with_edge(task, blocker);
    let edge = BlockerView { task_id: task, blocker_id: blocker };
    let one = seq![blocker];
    assert(one.drop_last() =~= Seq::<Seq<char>>::empty());
    assert(with_edges(s.blockers, task, one.drop_last()) == s.blockers);
    assert(one.last() == blocker);
    if s.has_edge(task, blocker) {
        let i = choose|i: int|
            0 <= i < s.blockers.len() && (#[trigger] s.blockers[i]).task_id == task
                && s.blockers[i].blocker_id == blocker;
        assert(s.blockers[i] == edge);
        assert(s.blockers.contains(edge));
        assert(n.blockers[i].task_id == task);
    } else {
        if s.blockers.contains(edge) {
            let i = choose|i: int| 0 <= i < s.blockers.len() && s.blockers[i] == edge;
            assert(s.blockers[i].task_id == task);
            assert(false);
        }
        assert(n.blockers[s.blockers.len() as int] == edge);
    }
}

/// Adding an edge between two different stored tasks keeps the invariant.
pub proof fn lemma_with_edge_wf(s: StoreView, task: Seq<char>, blocker: Seq<char>)
    requires
        s.wf(),
        s.contains(task),
        s.contains(blocker),
        task != blocker,
    ensures
        s.with_edge(task, blocker).wf(),
        s.same_forest(s.with_edge(task, blocker)),
{
    reveal(StoreView::parents_exist);
    reveal(StoreView::depth_bounded);
    reveal(StoreView::blockers_ok);
    reveal(StoreView::learnings_ok);
    let n = s.with_edge(task, blocker);
    let edge = BlockerView { task_id: task, blocker_id: blocker };
    lemma_with_edge_edges(s, task, blocker);
    assert(n.tasks == s.tasks);
    assert(n.learnings == s.learnings);
    if !s.has_edge(task, blocker) {
        assert(n.blockers == s.blockers.push(edge));
        assert(n.blockers_ok()) by {
            assert forall|i: int, j: int| 0 <= i < j < n.blockers.len() implies #[trigger] n.blockers[i]
                != #[trigger] n.blockers[j] by {
                if j == s.blockers.len() {
                    if s.blockers[i] == edge {
                        assert(s.blockers[i].task_id == task);
                        assert(s.has_edge(task, blocker));
                    }
                }
            }
        }
    }
}

} // verus!

verus! {

/// A learning under a fresh identifier can be added.
pub proof fn lemma_with_learning_wf(s: StoreView, l: LearningView)
    requires
        s.wf(),
        !s.has_learning(l.id),
    ensures
        s.with_learning(l).wf(),
        s.with_learning(l).tasks == s.tasks,
        s.with_learning(l).blockers == s.blockers,
        s.learnings.is_prefix_of(s.with_learning(l).learnings),
        s.contains(l.task_id) ==> s.with_learning(l).has_note(
            l.task_id,
            l.source_task_id,
            l.content,
        ),
        forall|id: Seq<char>| #[trigger]
            s.with_learning(l).has_learning(id) ==> s.has_learning(id) || id == l.id,
{
    reveal(StoreView::parents_exist);
    reveal(StoreView::depth_bounded);
    reveal(StoreView::blockers_ok);
    reveal(StoreView::learnings_ok);
    let n = s.with_learning(l);
    if n != s {
        let last = s.learnings.len() as int;
        assert(n.learnings[last] == l);
        assert(n.learnings_ok()) by {
            assert forall|i: int, j: int| 0 <= i < j < n.learnings.len() implies (
            #[trigger] n.learnings[i]).id != (#[trigger] n.learnings[j]).id by {
                if j == last {
                    assert(s.learnings[i].id != l.id);
                }
            }
            assert forall|i: int, j: int| 0 <= i < j < n.learnings.len() implies !({
                &&& (#[trigger] n.learnings[i]).task_id == (#[trigger] n.learnings[j]).task_id
                &&& n.learnings[i].source_task_id == n.learnings[j].source_task_id
                &&& n.learnings[i].content == n.learnings[j].content
            }) by {
                if j == last {
                    if s.learnings[i].task_id == l.task_id && s.learnings[i].source_task_id
                        == l.source_task_id && s.learnings[i].content == l.content {
                        assert(s.has_note(l.task_id, l.source_task_id, l.content));
                    }
                }
            }
        }
        assert forall|id: Seq<char>| #[trigger] n.has_learning(id) implies s.has_learning(id) || id
            == l.id by {
            let i = choose|i: int| 0 <= i < n.learnings.len() && (#[trigger] n.learnings[i]).id == id;
            if i < last {
                assert(s.learnings[i].id == id);
            }
        }
    } else if s.contains(l.task_id) {
        assert(s.has_note(l.task_id, l.source_task_id, l.content));
    }
}

/// Copies under fresh identifiers that differ from each other can be added.
pub proof fn lemma_with_copies_wf(
    s: StoreView,
    items: Seq<LearningView>,
    from: Seq<char>,
    to: Seq<char>,
    ids: Seq<Seq<char>>,
    now: Timestamp,
)
    requires
        s.wf(),
        s.fresh_learning_ids(ids),
        items.len() <= ids.len(),
    ensures
        s.with_copies(items, from, to, ids, now).wf(),
        s.with_copies(items, from, to, ids, now).tasks == s.tasks,
        s.with_copies(items, from, to, ids, now).blockers == s.blockers,
        s.learnings.is_prefix_of(s.with_copies(items, from, to, ids, now).learnings),
        forall|id: Seq<char>| #[trigger]
            s.with_copies(items, from, to, ids, now).has_learning(id) ==> s.has_learning(id) || (
            exists|k: int| 0 <= k < items.len() && ids[k] == id),
    decreases items.len(),
{
    reveal(StoreView::parents_exist);
    reveal(StoreView::depth_bounded);
    reveal(StoreView::blockers_ok);
    reveal(StoreView::learnings_ok);
    if items.len() > 0 {
        let k = items.len() - 1;
        let rest = items.drop_last();
        let mid = s.with_copies(rest, from, to, ids, now);
        lemma_with_copies_wf(s, rest, from, to, ids, now);
        let l = StoreView::handed_up(items[k], from, to, ids[k], now);
        if mid.has_learning(ids[k]) {
            if !s.has_learning(ids[k]) {
                let j = choose|j: int| 0 <= j < rest.len() && ids[j] == ids[k];
                assert(false);
            }
        }
        lemma_with_learning_wf(mid, l);
        let n = mid.with_learning(l);
        assert(s.learnings.is_prefix_of(n.learnings));
        assert forall|id: Seq<char>| #[trigger] n.has_learning(id) implies s.has_learning(id) || (
        exists|j: int| 0 <= j < items.len() && ids[j] == id) by {
            if mid.has_learning(id) {
                if !s.has_learning(id) {
                    let j = choose|j: int| 0 <= j < rest.len() && ids[j] == id;
                    assert(0 <= j < items.len() && ids[j] == id);
                }
            } else {
                assert(ids[k] == id);
            }
        }
    }
}

/// What is kept of a sequence keeps its order: the places that the kept
/// elements come from, which are handed back, increase.
pub proof fn lemma_filter_sources<A>(s: Seq<A>, p: spec_fn(A) -> bool) -> (from: Seq<int>)
    ensures
        from.len() == s.filter(p).len(),
        forall|k: int|
            0 <= k < from.len() ==> 0 <= #[trigger] from[k] < s.len() && s[from[k]] == s.filter(
                p,
            )[k],
        forall|k: int, l: int| 0 <= k < l < from.len() ==> #[trigger] from[k] < #[trigger] from[l],
    decreases s.len(),
{
    reveal(Seq::filter);
    if s.len() == 0 {
        Seq::<int>::empty()
    } else {
        let rest = s.drop_last();
        let before = lemma_filter_sources(rest, p);
        let from = if p(s.last()) {
            before.push(s.len() - 1)
        } else {
            before
        };
        assert forall|k: int| 0 <= k < from.len() implies 0 <= #[trigger] from[k] < s.len()
            && s[from[k]] == s.filter(p)[k] by {
            if k < before.len() {
                assert(rest[before[k]] == rest.filter(p)[k]);
            }
        }
        assert forall|k: int, l: int| 0 <= k < l < from.len() implies #[trigger] from[k]
            < #[trigger] from[l] by {
            if l < before.len() {
            } else {
                assert(0 <= before[k] < rest.len());
            }
        }
        from
    }
}

/// Dropping learnings keeps the invariant.
pub proof fn lemma_learnings_filtered_wf(s: StoreView, p: spec_fn(LearningView) -> bool)
    requires
        s.wf(),
    ensures
        (StoreView { learnings: s.learnings.filter(p), ..s }).wf(),
{
    reveal(StoreView::parents_exist);
    reveal(StoreView::depth_bounded);
    reveal(StoreView::blockers_ok);
    reveal(StoreView::learnings_ok);
    let n = StoreView { learnings: s.learnings.filter(p), ..s };
    let kept = s.learnings.filter(p);
    let from = lemma_filter_sources(s.learnings, p);
    assert forall|i: int| 0 <= i < kept.len() implies n.contains((#[trigger] kept[i]).task_id) by {
        assert(s.learnings[from[i]] == kept[i]);
        assert(s.contains(s.learnings[from[i]].task_id));
    }
    assert forall|i: int, j: int| 0 <= i < j < kept.len() implies (#[trigger] kept[i]).id != (
    #[trigger] kept[j]).id by {
        assert(from[i] < from[j]);
        assert(s.learnings[from[i]].id != s.learnings[from[j]].id);
    }
    assert forall|i: int, j: int| 0 <= i < j < kept.len() implies !({
        &&& (#[trigger] kept[i]).task_id == (#[trigger] kept[j]).task_id
        &&& kept[i].source_task_id == kept[j].source_task_id
        &&& kept[i].content == kept[j].content
    }) by {
        assert(from[i] < from[j]);
        let a = s.learnings[from[i]];
        let b = s.learnings[from[j]];
        assert(!(a.task_id == b.task_id && a.source_task_id == b.source_task_id && a.content
            == b.content));
    }
}

} // verus!

verus! {

/// Replacing a task by one with the same identifier changes its record and
/// nothing else.
pub proof fn lemma_replaced(s: StoreView, i: int, t: TaskView, x: Seq<char>)
    requires
        s.ids_unique(),
        0 <= i < s.tasks.len(),
        t.id == s.tasks[i].id,
    ensures
        s.with_task_at(i, t).ids_unique(),
        s.with_task_at(i, t).contains(x) == s.contains(x),
        x != t.id && s.contains(x) ==> s.with_task_at(i, t).task(x) == s.task(x),
        s.with_task_at(i, t).task(t.id) == t,
        s.with_task_at(i, t).parent_of(x) == if x == t.id {
            t.parent_id
        } else {
            s.parent_of(x)
        },
{
    reveal(StoreView::parents_exist);
    reveal(StoreView::depth_bounded);
    reveal(StoreView::blockers_ok);
    reveal(StoreView::learnings_ok);
    let n = s.with_task_at(i, t);
    assert(n.ids_unique()) by {
        assert forall|a: int, b: int| 0 <= a < b < n.tasks.len() implies (#[trigger] n.tasks[a]).id
            != (#[trigger] n.tasks[b]).id by {
            assert(s.tasks[a].id != s.tasks[b].id);
        }
    }
    lemma_task_at(s, i);
    lemma_task_at(n, i);
    if s.contains(x) {
        let k = s.index_of(x);
        assert(n.tasks[k].id == x);
        lemma_task_at(n, k);
        lemma_task_at(s, k);
    }
    if n.contains(x) {
        let k = n.index_of(x);
        assert(s.tasks[k].id == x);
        lemma_task_at(s, k);
    }
}

/// The hypotheses under which the task at `i` can be moved under `parent`.
pub open spec fn can_reparent(s: StoreView, i: int, t: TaskView, parent: Seq<char>) -> bool {
    &&& s.wf()
    &&& 0 <= i < s.tasks.len()
    &&& t.id == s.tasks[i].id
    &&& t.parent_id == Some(parent)
    &&& s.contains(parent)
    &&& !s.closes_parent_cycle(t.id, parent)
    &&& s.fits_under(t.id, parent)
}

/// The parents after the task at `i` was replaced by `t`.
pub proof fn lemma_replaced_parents(s: StoreView, i: int, t: TaskView)
    requires
        s.ids_unique(),
        0 <= i < s.tasks.len(),
        t.id == s.tasks[i].id,
    ensures
        forall|y: Seq<char>| #[trigger]
            (s.with_task_at(i, t).parents())(y) == if y == t.id {
                t.parent_id
            } else {
                (s.parents())(y)
            },
{
    reveal(StoreView::parents_exist);
    reveal(StoreView::depth_bounded);
    reveal(StoreView::blockers_ok);
    reveal(StoreView::learnings_ok);
    assert forall|y: Seq<char>| #[trigger]
        (s.with_task_at(i, t).parents())(y) == if y == t.id {
            t.parent_id
        } else {
            (s.parents())(y)
        } by {
        lemma_replaced(s, i, t, y);
    }
}

/// The chains stay within the bound when `t` is moved under `p`, where
/// `height` levels lie below `t`.
proof fn lemma_chain_moved_bound(
    f: spec_fn(Seq<char>) -> Option<Seq<char>>,
    g: spec_fn(Seq<char>) -> Option<Seq<char>>,
    t: Seq<char>,
    p: Seq<char>,
    x: Seq<char>,
    height: int,
)
    requires
        forall|y: Seq<char>| #[trigger] g(y) == if y == t {
            Some(p)
        } else {
            f(y)
        },
        p != t,
        !chain(f, p).contains(t),
        chain(f, x).len() <= 2,
        height >= 0,
        chain(f, p).len() + 1 + height <= 2,
        x != t && f(x) == Some(t) ==> height >= 1,
        x != t && f(x) is Some && f(f(x)->0) == Some(t) ==> height >= 2,
    ensures
        chain(g, x).len() <= 2,
        x == t ==> chain(g, x).len() == chain(f, p).len() + 1,
{
    lemma_chain_moved(f, g, t, p, x);
    if x != t && chain(f, x).contains(t) {
        let q = f(x)->0;
        if q != t {
            lemma_chain_step(f, x);
            assert(chain(f, q).contains(t));
            assert(f(q) == Some(t));
        }
    }
}

/// A task with a child has a level below it, one with a grandchild two.
proof fn lemma_height_witness(s: StoreView, id: Seq<char>, k: int)
    requires
        0 <= k < s.tasks.len(),
    ensures
        s.subtree_height(id) >= 0,
        s.tasks[k].parent_id == Some(id) ==> s.subtree_height(id) >= 1,
        s.tasks[k].parent_id is Some && s.parent_of(s.tasks[k].parent_id->0) == Some(id)
            ==> s.subtree_height(id) >= 2,
{
    reveal(StoreView::parents_exist);
    reveal(StoreView::depth_bounded);
    reveal(StoreView::blockers_ok);
    reveal(StoreView::learnings_ok);
}

proof fn lemma_reparent_depth_at(s: StoreView, i: int, t: TaskView, parent: Seq<char>, k: int)
    requires
        s.ids_unique(),
        0 <= i < s.tasks.len(),
        t.id == s.tasks[i].id,
        t.parent_id == Some(parent),
        !s.closes_parent_cycle(t.id, parent),
        s.fits_under(t.id, parent),
        0 <= k < s.tasks.len(),
        s.depth(s.tasks[k].id) <= max_depth(),
    ensures
        s.with_task_at(i, t).depth(s.tasks[k].id) <= max_depth(),
        k == i ==> s.with_task_at(i, t).depth(t.id) == s.depth(parent) + 1,
{
    reveal(StoreView::parents_exist);
    reveal(StoreView::depth_bounded);
    reveal(StoreView::blockers_ok);
    reveal(StoreView::learnings_ok);
    let n = s.with_task_at(i, t);
    let x = s.tasks[k].id;
    let f = s.parents();
    let g = n.parents();
    lemma_task_at(s, k);
    assert(f(x) == s.tasks[k].parent_id);
    lemma_replaced_parents(s, i, t);
    lemma_height_witness(s, t.id, k);
    lemma_chain_moved_bound(f, g, t.id, parent, x, s.subtree_height(t.id));
}

/// A task that is moved under a stored parent, where this closes no cycle
/// and the task fits with what lies below it, leaves the store well formed.
pub proof fn lemma_reparent_wf(s: StoreView, i: int, t: TaskView, parent: Seq<char>)
    requires
        can_reparent(s, i, t, parent),
    ensures
        s.with_task_at(i, t).wf(),
        s.with_task_at(i, t) == s.with_task(t),
        s.with_task_at(i, t).depth(t.id) == s.depth(parent) + 1,
{
    reveal(StoreView::parents_exist);
    reveal(StoreView::depth_bounded);
    reveal(StoreView::blockers_ok);
    reveal(StoreView::learnings_ok);
    let n = s.with_task_at(i, t);
    lemma_task_at(s, i);
    lemma_replaced(s, i, t, t.id);
    assert(n.parents_exist()) by {
        assert forall|k: int|
            0 <= k < n.tasks.len() && (#[trigger] n.tasks[k]).parent_id is Some implies n.contains(
            n.tasks[k].parent_id->0,
        ) by {
            let p = n.tasks[k].parent_id->0;
            lemma_replaced(s, i, t, p);
            if k != i {
                assert(s.tasks[k].parent_id == Some(p));
                assert(s.contains(p));
            }
        }
    }
    assert(n.depth_bounded()) by {
        assert forall|k: int| 0 <= k < n.tasks.len() implies n.depth((#[trigger] n.tasks[k]).id)
            <= max_depth() by {
            assert(n.tasks[k].id == s.tasks[k].id);
            assert(s.depth(s.tasks[k].id) <= max_depth());
            lemma_reparent_depth_at(s, i, t, parent, k);
        }
    }
    assert(s.depth(s.tasks[i].id) <= max_depth());
    lemma_reparent_depth_at(s, i, t, parent, i);
    assert(n.blockers_ok()) by {
        assert forall|k: int| 0 <= k < n.blockers.len() implies {
            &&& n.contains((#[trigger] n.blockers[k]).task_id)
            &&& n.contains(n.blockers[k].blocker_id)
            &&& n.blockers[k].task_id != n.blockers[k].blocker_id
        } by {
            lemma_replaced(s, i, t, s.blockers[k].task_id);
            lemma_replaced(s, i, t, s.blockers[k].blocker_id);
        }
    }
    assert(n.learnings_ok()) by {
        assert forall|k: int| 0 <= k < n.learnings.len() implies n.contains(
            (#[trigger] n.learnings[k]).task_id,
        ) by {
            lemma_replaced(s, i, t, s.learnings[k].task_id);
        }
    }
}

} // verus!

verus! {

/// The tasks that are left when a subtree is removed: those stored outside
/// it, each with its record.
pub proof fn lemma_subtree_tasks(s: StoreView, id: Seq<char>)
    requires
        s.ids_unique(),
    ensures
        s.without_subtree(id).ids_unique(),
        forall|x: Seq<char>| #[trigger]
            s.without_subtree(id).contains(x) == (s.contains(x) && s.outside_subtree(id, x)),
        forall|x: Seq<char>| #[trigger]
            s.without_subtree(id).contains(x) ==> s.without_subtree(id).task(x) == s.task(x),
{
    reveal(StoreView::parents_exist);
    reveal(StoreView::depth_bounded);
    reveal(StoreView::blockers_ok);
    reveal(StoreView::learnings_ok);
    let n = s.without_subtree(id);
    let p = |t: TaskView| s.outside_subtree(id, t.id);
    let from = lemma_filter_sources(s.tasks, p);
    lemma_filter_members(s.tasks, p);
    assert(n.tasks == s.tasks.filter(p));
    assert forall|a: int, b: int| 0 <= a < b < n.tasks.len() implies (#[trigger] n.tasks[a]).id != (
    #[trigger] n.tasks[b]).id by {
        assert(from[a] < from[b]);
        assert(s.tasks[from[a]].id != s.tasks[from[b]].id);
    }
    assert forall|x: Seq<char>| #[trigger]
        n.contains(x) == (s.contains(x) && s.outside_subtree(id, x)) by {
        if n.contains(x) {
            let k = n.index_of(x);
            assert(s.tasks[from[k]] == n.tasks[k]);
            assert(p(n.tasks[k]));
        }
        if s.contains(x) && s.outside_subtree(id, x) {
            let i = s.index_of(x);
            assert(p(s.tasks[i]));
            assert(n.tasks.contains(s.tasks[i]));
            let k = choose|k: int| 0 <= k < n.tasks.len() && n.tasks[k] == s.tasks[i];
            assert(n.tasks[k].id == x);
        }
    }
    assert forall|x: Seq<char>| #[trigger] n.contains(x) implies n.task(x) == s.task(x) by {
        let k = n.index_of(x);
        lemma_task_at(n, k);
        assert(s.tasks[from[k]] == n.tasks[k]);
        lemma_task_at(s, from[k]);
    }
}

/// What lies outside a subtree has its ancestors outside it.
proof fn lemma_chain_outside(f: spec_fn(Seq<char>) -> Option<Seq<char>>, t: Seq<char>, x: Seq<char>)
    requires
        chain(f, x).len() <= 2,
        !chain(f, x).contains(t),
    ensures
        forall|k: int|
            0 <= k < chain(f, x).len() ==> #[trigger] chain(f, x)[k] != t && !chain(
                f,
                chain(f, x)[k],
            ).contains(t),
{
    if f(x) is Some {
        let p = f(x)->0;
        lemma_chain_step(f, x);
        assert(chain(f, x)[0] == p);
        assert forall|j: int| 0 <= j < chain(f, p).len() implies chain(f, p)[j] != t by {
            assert(chain(f, x)[j + 1] == chain(f, p)[j]);
        }
        if f(p) is Some {
            let q = f(p)->0;
            assert(chain(f, x)[1] == q);
            assert(chain(f, q).len() == 0);
        }
    }
}

/// A task that is left when a subtree is removed has the ancestors it had.
proof fn lemma_subtree_ancestors(s: StoreView, id: Seq<char>, x: Seq<char>)
    requires
        s.ids_unique(),
        s.parents_exist(),
        s.contains(x),
        s.outside_subtree(id, x),
        s.depth(x) <= max_depth(),
    ensures
        s.without_subtree(id).ancestors(x) == s.ancestors(x),
        forall|k: int|
            0 <= k < s.ancestors(x).len() ==> s.without_subtree(id).contains(
                #[trigger] s.ancestors(x)[k],
            ),
{
    reveal(StoreView::parents_exist);
    reveal(StoreView::depth_bounded);
    reveal(StoreView::blockers_ok);
    reveal(StoreView::learnings_ok);
    let n = s.without_subtree(id);
    let f = s.parents();
    let g = n.parents();
    lemma_subtree_tasks(s, id);
    lemma_chain_outside(f, id, x);
    assert(n.contains(x));
    assert(f(x) == g(x));
    lemma_task_of(s, x);
    assert forall|k: int| 0 <= k < chain(f, x).len() implies n.contains(#[trigger] chain(f, x)[k])
        && f(chain(f, x)[k]) == g(chain(f, x)[k]) by {
        let a = chain(f, x)[k];
        let p = f(x)->0;
        assert(s.contains(p));
        lemma_task_of(s, p);
        if k == 1 {
            assert(s.contains(f(p)->0));
        }
        assert(s.contains(a));
        assert(s.outside_subtree(id, a));
        assert(n.contains(a));
    }
    lemma_chain_agree(f, g, x);
}

proof fn lemma_without_subtree_at(s: StoreView, id: Seq<char>, x: TaskView)
    requires
        s.ids_unique(),
        s.parents_exist(),
        s.contains(x.id),
        s.task(x.id) == x,
        s.outside_subtree(id, x.id),
        s.depth(x.id) <= max_depth(),
    ensures
        s.without_subtree(id).depth(x.id) <= max_depth(),
        x.parent_id is Some ==> s.without_subtree(id).contains(x.parent_id->0),
{
    lemma_subtree_ancestors(s, id, x.id);
    if x.parent_id is Some {
        assert(s.parent_of(x.id) == x.parent_id);
        assert(s.ancestors(x.id)[0] == x.parent_id->0);
    }
}

proof fn lemma_without_subtree_forest(s: StoreView, id: Seq<char>)
    requires
        s.wf(),
    ensures
        s.without_subtree(id).parents_exist(),
        s.without_subtree(id).depth_bounded(),
{
    let n = s.without_subtree(id);
    lemma_subtree_tasks(s, id);
    assert forall|k: int| 0 <= k < n.tasks.len() implies n.depth((#[trigger] n.tasks[k]).id)
        <= max_depth() && (n.tasks[k].parent_id is Some ==> n.contains(
        n.tasks[k].parent_id->0,
    )) by {
        let x = n.tasks[k];
        lemma_task_at(n, k);
        assert(n.contains(x.id));
        assert(s.contains(x.id) && s.outside_subtree(id, x.id));
        assert(s.task(x.id) == x);
        assert(s.depth(x.id) <= max_depth()) by {
            reveal(StoreView::depth_bounded);
            lemma_task_of(s, x.id);
        }
        lemma_without_subtree_at(s, id, x);
    }
    assert(n.parents_exist()) by {
        reveal(StoreView::parents_exist);
    }
    assert(n.depth_bounded()) by {
        reveal(StoreView::depth_bounded);
    }
}

proof fn lemma_without_subtree_blockers(s: StoreView, id: Seq<char>)
    requires
        s.ids_unique(),
        s.blockers_ok(),
    ensures
        s.without_subtree(id).blockers_ok(),
{
    reveal(StoreView::blockers_ok);
    let n = s.without_subtree(id);
    lemma_subtree_tasks(s, id);
    let bp = |e: BlockerView|
        s.outside_subtree(id, e.task_id) && s.outside_subtree(id, e.blocker_id);
    let bfrom = lemma_filter_sources(s.blockers, bp);
    lemma_filter_members(s.blockers, bp);
    assert(n.blockers == s.blockers.filter(bp));
    assert forall|k: int| 0 <= k < n.blockers.len() implies {
        &&& n.contains((#[trigger] n.blockers[k]).task_id)
        &&& n.contains(n.blockers[k].blocker_id)
        &&& n.blockers[k].task_id != n.blockers[k].blocker_id
    } by {
        assert(s.blockers[bfrom[k]] == n.blockers[k]);
        assert(bp(n.blockers[k]));
        assert(s.contains(s.blockers[bfrom[k]].task_id));
    }
    assert forall|a: int, b: int| 0 <= a < b < n.blockers.len() implies #[trigger] n.blockers[a]
        != #[trigger] n.blockers[b] by {
        assert(bfrom[a] < bfrom[b]);
        assert(s.blockers[bfrom[a]] != s.blockers[bfrom[b]]);
    }
}

proof fn lemma_without_subtree_learnings(s: StoreView, id: Seq<char>)
    requires
        s.ids_unique(),
        s.learnings_ok(),
    ensures
        s.without_subtree(id).learnings_ok(),
{
    reveal(StoreView::learnings_ok);
    let n = s.without_subtree(id);
    lemma_subtree_tasks(s, id);
    let lp = |l: LearningView| s.outside_subtree(id, l.task_id);
    let lfrom = lemma_filter_sources(s.learnings, lp);
    lemma_filter_members(s.learnings, lp);
    assert(n.learnings == s.learnings.filter(lp));
    assert forall|k: int| 0 <= k < n.learnings.len() implies n.contains(
        (#[trigger] n.learnings[k]).task_id,
    ) by {
        assert(s.learnings[lfrom[k]] == n.learnings[k]);
        assert(lp(n.learnings[k]));
        assert(s.contains(s.learnings[lfrom[k]].task_id));
    }
    assert forall|a: int, b: int| 0 <= a < b < n.learnings.len() implies (
    #[trigger] n.learnings[a]).id != (#[trigger] n.learnings[b]).id by {
        assert(lfrom[a] < lfrom[b]);
        assert(s.learnings[lfrom[a]].id != s.learnings[lfrom[b]].id);
    }
    assert forall|a: int, b: int| 0 <= a < b < n.learnings.len() implies !({
        &&& (#[trigger] n.learnings[a]).task_id == (#[trigger] n.learnings[b]).task_id
        &&& n.learnings[a].source_task_id == n.learnings[b].source_task_id
        &&& n.learnings[a].content == n.learnings[b].content
    }) by {
        assert(lfrom[a] < lfrom[b]);
        let u = s.learnings[lfrom[a]];
        let v = s.learnings[lfrom[b]];
        assert(!(u.task_id == v.task_id && u.source_task_id == v.source_task_id && u.content
            == v.content));
    }
}

/// Removing a subtree keeps the invariant.
pub proof fn lemma_without_subtree_wf(s: StoreView, id: Seq<char>)
    requires
        s.wf(),
    ensures
        s.without_subtree(id).wf(),
{
    lemma_subtree_tasks(s, id);
    lemma_without_subtree_forest(s, id);
    lemma_without_subtree_blockers(s, id);
    lemma_without_subtree_learnings(s, id);
}

} // verus!

verus! {

/// Stores with the same forest and the same edges and learnings are well
/// formed together.
pub proof fn lemma_same_forest_wf(a: StoreView, b: StoreView)
    requires
        a.wf(),
        a.same_forest(b),
        a.blockers == b.blockers,
        a.learnings == b.learnings,
    ensures
        b.wf(),
{
    reveal(StoreView::parents_exist);
    reveal(StoreView::depth_bounded);
    reveal(StoreView::blockers_ok);
    reveal(StoreView::learnings_ok);
    lemma_same_forest(a, b, Seq::empty());
    assert forall|k: int| 0 <= k < b.tasks.len() implies b.depth((#[trigger] b.tasks[k]).id)
        <= max_depth() && (b.tasks[k].parent_id is Some ==> b.contains(
        b.tasks[k].parent_id->0,
    )) by {
        lemma_same_forest_ancestors(a, b, a.tasks[k].id);
        assert(a.depth(a.tasks[k].id) <= max_depth());
        if a.tasks[k].parent_id is Some {
            assert(a.contains(a.tasks[k].parent_id->0));
            lemma_same_forest(a, b, a.tasks[k].parent_id->0);
        }
    }
    assert forall|k: int| 0 <= k < b.blockers.len() implies {
        &&& b.contains((#[trigger] b.blockers[k]).task_id)
        &&& b.contains(b.blockers[k].blocker_id)
        &&& b.blockers[k].task_id != b.blockers[k].blocker_id
    } by {
        lemma_same_forest(a, b, a.blockers[k].task_id);
        lemma_same_forest(a, b, a.blockers[k].blocker_id);
    }
    assert forall|k: int| 0 <= k < b.learnings.len() implies b.contains(
        (#[trigger] b.learnings[k]).task_id,
    ) by {
        lemma_same_forest(a, b, a.learnings[k].task_id);
    }
}

} // verus!

verus! {

/// In a well-formed store the ancestors of a stored task are stored.
pub proof fn lemma_ancestors_stored(s: StoreView, id: Seq<char>)
    requires
        s.wf(),
        s.contains(id),
    ensures
        s.depth(id) <= max_depth(),
        forall|k: int| 0 <= k < s.ancestors(id).len() ==> s.contains(#[trigger] s.ancestors(id)[k]),
{
    reveal(StoreView::parents_exist);
    reveal(StoreView::depth_bounded);
    lemma_task_of(s, id);
    if s.parent_of(id) is Some {
        let p = s.parent_of(id)->0;
        assert(s.contains(p));
        lemma_task_of(s, p);
        if s.parent_of(p) is Some {
            let g = s.parent_of(p)->0;
            assert(s.contains(g));
            lemma_task_of(s, g);
        }
    }
}

} // verus!

verus! {

/// Notes under fresh identifiers that differ from each other can be added.
pub proof fn lemma_with_notes_wf(
    s: StoreView,
    task: Seq<char>,
    contents: Seq<Seq<char>>,
    ids: Seq<Seq<char>>,
    now: Timestamp,
)
    requires
        s.wf(),
        s.fresh_learning_ids(ids),
        contents.len() <= ids.len(),
    ensures
        s.with_notes(task, contents, ids, now).wf(),
        s.with_notes(task, contents, ids, now).tasks == s.tasks,
        s.with_notes(task, contents, ids, now).blockers == s.blockers,
        s.learnings.is_prefix_of(s.with_notes(task, contents, ids, now).learnings),
        s.contains(task) ==> forall|k: int|
            0 <= k < contents.len() ==> s.with_notes(task, contents, ids, now).has_note(
                task,
                Some(task),
                #[trigger] contents[k],
            ),
        forall|id: Seq<char>| #[trigger]
            s.with_notes(task, contents, ids, now).has_learning(id) ==> s.has_learning(id) || (
            exists|k: int| 0 <= k < contents.len() && ids[k] == id),
    decreases contents.len(),
{
    if contents.len() > 0 {
        let k = contents.len() - 1;
        let rest = contents.drop_last();
        let mid = s.with_notes(task, rest, ids, now);
        lemma_with_notes_wf(s, task, rest, ids, now);
        let l = StoreView::own_note(task, contents[k], ids[k], now);
        if mid.has_learning(ids[k]) {
            if !s.has_learning(ids[k]) {
                let j = choose|j: int| 0 <= j < rest.len() && ids[j] == ids[k];
                assert(false);
            }
        }
        lemma_with_learning_wf(mid, l);
        let n = mid.with_learning(l);
        assert(s.learnings.is_prefix_of(n.learnings));
        if s.contains(task) {
            lemma_same_tasks(s, mid, task);
            assert forall|j: int| 0 <= j < contents.len() implies n.has_note(
                task,
                Some(task),
                #[trigger] contents[j],
            ) by {
                if j < k {
                    assert(rest[j] == contents[j]);
                    lemma_prefix_keeps_notes(mid, n, task, Some(task), contents[j]);
                }
            }
        }
        assert forall|id: Seq<char>| #[trigger] n.has_learning(id) implies s.has_learning(id) || (
        exists|j: int| 0 <= j < contents.len() && ids[j] == id) by {
            if mid.has_learning(id) {
                if !s.has_learning(id) {
                    let j = choose|j: int| 0 <= j < rest.len() && ids[j] == id;
                    assert(0 <= j < contents.len() && ids[j] == id);
                }
            } else {
                assert(ids[k] == id);
            }
        }
    }
}

/// Stores with the same tasks agree on everything that is read from the
/// tasks alone.
pub proof fn lemma_same_tasks(a: StoreView, b: StoreView, id: Seq<char>)
    requires
        a.tasks == b.tasks,
    ensures
        a.contains(id) == b.contains(id),
        a.task(id) == b.task(id),
        a.index_of(id) == b.index_of(id),
        a.parent_of(id) == b.parent_of(id),
        a.parents() == b.parents(),
        a.ancestors(id) == b.ancestors(id),
        a.has_pending_children(id) == b.has_pending_children(id),
        a.satisfies(id) == b.satisfies(id),
{
    assert(a.parents() =~= b.parents()) by {
        assert forall|x: Seq<char>| #[trigger] (a.parents())(x) == (b.parents())(x) by {
            assert(a.contains(x) == b.contains(x));
        }
    }
}

} // verus!

verus! {

/// After copies of `items` were attached to a stored task, the task holds
/// a learning with the content of each of them, under the origin that the
/// copy was given.
pub proof fn lemma_with_copies_notes(
    s: StoreView,
    items: Seq<LearningView>,
    from: Seq<char>,
    to: Seq<char>,
    ids: Seq<Seq<char>>,
    now: Timestamp,
)
    requires
        s.contains(to),
    ensures
        s.with_copies(items, from, to, ids, now).tasks == s.tasks,
        forall|j: int|
            0 <= j < items.len() ==> s.with_copies(items, from, to, ids, now).has_note(
                to,
                StoreView::handed_up(#[trigger] items[j], from, to, ids[j], now).source_task_id,
                items[j].content,
            ),
    decreases items.len(),
{
    if items.len() > 0 {
        let k = items.len() - 1;
        let rest = items.drop_last();
        let mid = s.with_copies(rest, from, to, ids, now);
        lemma_with_copies_notes(s, rest, from, to, ids, now);
        lemma_same_tasks(s, mid, to);
        let l = StoreView::handed_up(items[k], from, to, ids[k], now);
        let n = mid.with_learning(l);
        if !mid.has_note(to, l.source_task_id, l.content) {
            assert(n.learnings[mid.learnings.len() as int] == l);
        }
        assert(mid.learnings.is_prefix_of(n.learnings));
        assert forall|j: int| 0 <= j < items.len() implies n.has_note(
            to,
            StoreView::handed_up(#[trigger] items[j], from, to, ids[j], now).source_task_id,
            items[j].content,
        ) by {
            if j < k {
                assert(rest[j] == items[j]);
                lemma_prefix_keeps_notes(
                    mid,
                    n,
                    to,
                    StoreView::handed_up(items[j], from, to, ids[j], now).source_task_id,
                    items[j].content,
                );
            }
        }
    }
}

/// A store that holds the learnings of another at its front holds the
/// notes of the other.
pub proof fn lemma_prefix_keeps_notes(
    a: StoreView,
    b: StoreView,
    task: Seq<char>,
    origin: Option<Seq<char>>,
    content: Seq<char>,
)
    requires
        a.learnings.is_prefix_of(b.learnings),
        a.has_note(task, origin, content),
    ensures
        b.has_note(task, origin, content),
{
    let i = choose|i: int|
        0 <= i < a.learnings.len() && (#[trigger] a.learnings[i]).task_id == task
            && a.learnings[i].source_task_id == origin && a.learnings[i].content == content;
    assert(b.learnings[i] == a.learnings[i]);
}

} // verus!
