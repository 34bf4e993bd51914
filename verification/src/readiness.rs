//! The readiness engine: which task is to be worked on next, and which
//! task is to be started when a task is asked for that waits for others.

use vstd::prelude::*;

use crate::error::OsError;
use crate::id::TaskId;
use crate::model::{max_depth, StoreView};
use crate::order::tasks_view;
use crate::task_service::TaskService;
use crate::types::{ids_view, opt_id_view, Task, TaskView};

verus! {

/// Every one of `tasks` is completed or cancelled.
pub open spec fn all_finished(tasks: Seq<TaskView>) -> bool {
    forall|k: int| 0 <= k < tasks.len() ==> (#[trigger] tasks[k]).is_finished_for_hierarchy()
}

impl StoreView {
    /// The next ready task at or below `t`, searched depth first with the
    /// children in traversal order; `above_unblocked` says that no task
    /// above `t` on the way down waits for a blocker.
    ///
    /// A task that is not open for work has nothing ready. A task without
    /// children is ready itself if it is unblocked. Otherwise the first
    /// child with something ready decides; if no child has, and every child
    /// is completed or cancelled, the task counts as a leaf.
    ///
    /// `levels` bounds how far down the search goes; two levels reach every
    /// task of a well-formed store.
    pub open spec fn ready_under(self, t: TaskView, above_unblocked: bool, levels: nat) -> Option<
        Seq<char>,
    >
        decreases levels, 0nat, 0nat,
    {
        if !t.is_active_for_work() {
            None
        } else {
            let unblocked = above_unblocked && self.own_unblocked(t.id);
            let children = self.children_ordered(t.id);
            if children.len() == 0 {
                if unblocked {
                    Some(t.id)
                } else {
                    None
                }
            } else if levels == 0 {
                None
            } else {
                let below = self.first_ready(children, unblocked, (levels - 1) as nat);
                if below is Some {
                    below
                } else if unblocked && all_finished(children) {
                    Some(t.id)
                } else {
                    None
                }
            }
        }
    }

    /// The next ready task under the first of `tasks` that has one.
    pub open spec fn first_ready(
        self,
        tasks: Seq<TaskView>,
        above_unblocked: bool,
        levels: nat,
    ) -> Option<Seq<char>>
        decreases levels, 1nat, tasks.len(),
    {
        if tasks.len() == 0 {
            None
        } else {
            let here = self.ready_under(tasks[0], above_unblocked, levels);
            if here is Some {
                here
            } else {
                self.first_ready(tasks.skip(1), above_unblocked, levels)
            }
        }
    }

    /// The next ready task: under the task `root` where one is given,
    /// among all tasks otherwise. Under a task with an ancestor that waits
    /// for a blocker nothing is ready.
    pub open spec fn next_ready(self, root: Option<Seq<char>>) -> Option<Seq<char>> {
        match root {
            Some(id) => self.ready_under(
                self.task(id),
                !self.ancestor_blocked(id),
                max_depth() as nat,
            ),
            None => self.first_ready(self.roots(), true, max_depth() as nat),
        }
    }
}

impl TaskService {
    /// Whether every one of `tasks` is completed or cancelled.
    fn all_tasks_finished(tasks: &Vec<Task>) -> (r: bool)
        ensures
            r == all_finished(tasks_view(tasks@)),
    {
        let mut i: usize = 0;
        while i < tasks.len()
            invariant
                i <= tasks@.len(),
                forall|k: int| 0 <= k < i ==> (#[trigger] tasks_view(tasks@)[k]).is_finished_for_hierarchy(),
            decreases tasks@.len() - i,
        {
            if !tasks[i].is_finished_for_hierarchy() {
                assert(!tasks_view(tasks@)[i as int].is_finished_for_hierarchy());
                return false;
            }
            i += 1;
        }
        true
    }

    /// The next ready task at or below `task`.
    #[verifier::loop_isolation(false)]
    fn find_next_ready_under(&self, task: &Task, ancestors_unblocked: bool, levels: usize) -> (r:
        Option<TaskId>)
        requires
            self@.wf(),
        ensures
            crate::types::opt_id_view(r) == self@.ready_under(
                task@,
                ancestors_unblocked,
                levels as nat,
            ),
        decreases levels,
    {
        if !task.is_active_for_work() {
            return None;
        }
        let unblocked = ancestors_unblocked && self.store.own_unblocked(&task.id);
        let children = self.store.get_children_ordered(&task.id);
        if children.len() == 0 {
            if unblocked {
                return Some(task.id.clone());
            } else {
                return None;
            }
        }
        if levels == 0 {
            return None;
        }
        let all_done = Self::all_tasks_finished(&children);
        let ghost kids = tasks_view(children@);
        let mut i: usize = 0;
        proof {
            assert(kids.skip(0) =~= kids);
        }
        while i < children.len()
            invariant
                i <= children@.len(),
                self@.wf(),
                levels > 0,
                kids == tasks_view(children@),
                self@.first_ready(kids, unblocked, (levels - 1) as nat) == self@.first_ready(
                    kids.skip(i as int),
                    unblocked,
                    (levels - 1) as nat,
                ),
            decreases children@.len() - i,
        {
            proof {
                assert(kids.skip(i as int)[0] == children@[i as int]@);
                assert(kids.skip(i as int).skip(1) =~= kids.skip(i + 1));
            }
            if let Some(found) = self.find_next_ready_under(&children[i], unblocked, levels - 1) {
                return Some(found);
            }
            i += 1;
        }
        if all_done && unblocked {
            Some(task.id.clone())
        } else {
            None
        }
    }

    /// The next ready task: the deepest task that is open for work and not
    /// effectively blocked, found depth first in traversal order, under
    /// `milestone` where one is given and among all tasks otherwise.
    #[verifier::loop_isolation(false)]
    pub fn next_ready(&self, milestone: Option<&TaskId>) -> (r: Result<Option<TaskId>, OsError>)
        requires
            self@.wf(),
        ensures
            match milestone {
                Some(id) => if self@.contains(id@) {
                    r matches Ok(found) && crate::types::opt_id_view(found) == self@.next_ready(
                        Some(id@),
                    )
                } else {
                    r matches Err(OsError::TaskNotFound(missing)) && missing@ == id@
                },
                None => r matches Ok(found) && crate::types::opt_id_view(found)
                    == self@.next_ready(None),
            },
    {
        match milestone {
            Some(id) => {
                let task = match self.store.get_task(id) {
                    Some(t) => t,
                    None => {
                        return Err(OsError::TaskNotFound(id.clone()));
                    },
                };
                let above_unblocked = !self.store.ancestor_blocked(id);
                Ok(self.find_next_ready_under(&task, above_unblocked, 2))
            },
            None => {
                let roots = self.store.list_roots();
                let ghost all = tasks_view(roots@);
                let mut i: usize = 0;
                proof {
                    assert(all.skip(0) =~= all);
                }
                while i < roots.len()
                    invariant
                        i <= roots@.len(),
                        self@.wf(),
                        all == tasks_view(roots@),
                        all == self@.roots(),
                        self@.first_ready(all, true, 2) == self@.first_ready(
                            all.skip(i as int),
                            true,
                            2,
                        ),
                    decreases roots@.len() - i,
                {
                    proof {
                        assert(all.skip(i as int)[0] == roots@[i as int]@);
                        assert(all.skip(i as int).skip(1) =~= all.skip(i + 1));
                    }
                    if let Some(found) = self.find_next_ready_under(&roots[i], true, 2) {
                        return Ok(Some(found));
                    }
                    i += 1;
                }
                Ok(None)
            },
        }
    }
}

/// How the search for a task to start ends.
pub enum Resolution {
    /// The task to start.
    Found(Seq<char>),
    /// A blocker came up twice: the blockers followed, the repeated one
    /// last.
    Cycle(Seq<Seq<char>>),
    /// The task asked for is not stored.
    Missing(Seq<char>),
    /// Every path ends at something that cannot be started.
    Nothing,
}

/// The views of a list of paths, in order.
pub open spec fn paths_view(v: Seq<Vec<TaskId>>) -> Seq<Seq<Seq<char>>> {
    Seq::new(v.len(), |i: int| ids_view(v[i]@))
}

impl StoreView {
    /// The unfinished leaves at or below `t`, each as the path that leads
    /// to it from the start of `path`, leaves in traversal order. A task
    /// whose children are all completed or cancelled counts as a leaf; a
    /// task that is completed or cancelled itself has no leaves.
    pub open spec fn leaves_under(self, t: TaskView, path: Seq<Seq<char>>, levels: nat) -> Seq<
        Seq<Seq<char>>,
    >
        decreases levels, 0nat, 0nat,
    {
        if t.is_finished_for_hierarchy() {
            Seq::empty()
        } else {
            let children = self.children_ordered(t.id);
            if children.len() == 0 || all_finished(children) || levels == 0 {
                seq![path]
            } else {
                self.leaves_among(children, path, (levels - 1) as nat)
            }
        }
    }

    /// The unfinished leaves at or below each of `tasks` in turn.
    pub open spec fn leaves_among(
        self,
        tasks: Seq<TaskView>,
        path: Seq<Seq<char>>,
        levels: nat,
    ) -> Seq<Seq<Seq<char>>>
        decreases levels, 1nat, tasks.len(),
    {
        if tasks.len() == 0 {
            Seq::empty()
        } else {
            self.leaves_under(tasks[0], path.push(tasks[0].id), levels) + self.leaves_among(
                tasks.skip(1),
                path,
                levels,
            )
        }
    }

    /// The unsatisfied blockers of the first task along `path` that has
    /// any; empty where no task of the path waits for a blocker.
    pub open spec fn first_blockage(self, path: Seq<Seq<char>>) -> Seq<Seq<char>>
        decreases path.len(),
    {
        if path.len() == 0 {
            Seq::empty()
        } else if self.unsatisfied_blockers(path[0]).len() > 0 {
            self.unsatisfied_blockers(path[0])
        } else {
            self.first_blockage(path.skip(1))
        }
    }

    /// The task to start when `root` is asked for, `stack` being the
    /// blockers that were followed to get here.
    ///
    /// The unfinished leaves under `root` are tried in traversal order. A
    /// leaf with no unsatisfied blocker on the way from `root` is the
    /// answer. Otherwise the unsatisfied blockers of the first blocked task
    /// on that way are followed in turn: a blocker that is on the stack
    /// already closes a cycle; else the search goes on from the blocker. A
    /// blocker with nothing to start is passed over.
    pub open spec fn start_target(self, root: Seq<char>, stack: Seq<Seq<char>>) -> Resolution
        decreases self.tasks.len() - stack.len(), 2nat, 0nat,
    {
        if !self.contains(root) {
            Resolution::Missing(root)
        } else {
            self.target_among_leaves(
                self.leaves_under(self.task(root), seq![root], max_depth() as nat),
                stack,
            )
        }
    }

    /// The task to start at the first of `leaves` that leads to one.
    pub open spec fn target_among_leaves(
        self,
        leaves: Seq<Seq<Seq<char>>>,
        stack: Seq<Seq<char>>,
    ) -> Resolution
        decreases self.tasks.len() - stack.len(), 1nat, leaves.len(),
    {
        if leaves.len() == 0 {
            Resolution::Nothing
        } else {
            let blockers = self.first_blockage(leaves[0]);
            if blockers.len() == 0 {
                Resolution::Found(leaves[0].last())
            } else {
                let through = self.target_among_blockers(blockers, stack);
                if through is Nothing {
                    self.target_among_leaves(leaves.skip(1), stack)
                } else {
                    through
                }
            }
        }
    }

    /// The task to start at the first of `blockers` that leads to one.
    pub open spec fn target_among_blockers(
        self,
        blockers: Seq<Seq<char>>,
        stack: Seq<Seq<char>>,
    ) -> Resolution
        decreases self.tasks.len() - stack.len(), 0nat, blockers.len(),
    {
        if blockers.len() == 0 {
            Resolution::Nothing
        } else if stack.contains(blockers[0]) {
            Resolution::Cycle(stack.push(blockers[0]))
        } else if stack.len() >= self.tasks.len() {
            Resolution::Nothing
        } else {
            let through = self.start_target(blockers[0], stack.push(blockers[0]));
            if through is Nothing {
                self.target_among_blockers(blockers.skip(1), stack)
            } else {
                through
            }
        }
    }
}

/// The refusal `e` of the request for `root` says what `outcome` says.
pub open spec fn refusal_says(e: OsError, outcome: Resolution, root: Seq<char>) -> bool {
    match outcome {
        Resolution::Found(_) => false,
        Resolution::Cycle(chain) => e matches OsError::BlockerCycleDetected { message, chain: c }
            && ids_view(c@) == chain && message@ == cycle_message(chain),
        Resolution::Missing(id) => e matches OsError::TaskNotFound(missing) && missing@ == id,
        Resolution::Nothing => e matches OsError::NoStartableTask { requested, .. } && requested@
            == root,
    }
}

/// The answer `r` to the request for `root` says what `outcome` says.
pub open spec fn answers(r: Result<TaskId, OsError>, outcome: Resolution, root: Seq<char>) -> bool {
    match r {
        Ok(found) => outcome == Resolution::Found(found@),
        Err(e) => refusal_says(e, outcome, root),
    }
}

/// The unsatisfied blockers of a task are stored.
pub proof fn lemma_unsatisfied_stored(s: StoreView, id: Seq<char>)
    requires
        s.wf(),
    ensures
        forall|k: int|
            0 <= k < s.unsatisfied_blockers(id).len() ==> s.contains(
                #[trigger] s.unsatisfied_blockers(id)[k],
            ),
{
    reveal(StoreView::blockers_ok);
    let p = |b: Seq<char>| !s.satisfies(b);
    crate::model::lemma_filter_members(s.blockers_of(id), p);
    crate::graph::lemma_blockers_of(s, id);
    assert forall|k: int| 0 <= k < s.unsatisfied_blockers(id).len() implies s.contains(
        #[trigger] s.unsatisfied_blockers(id)[k],
    ) by {
        let b = s.unsatisfied_blockers(id)[k];
        assert(s.blockers_of(id).contains(b));
        assert(s.has_edge(id, b));
        let e = choose|e: int|
            0 <= e < s.blockers.len() && (#[trigger] s.blockers[e]).task_id == id
                && s.blockers[e].blocker_id == b;
        assert(s.contains(s.blockers[e].blocker_id));
    }
}

/// The blockers of the first blockage along a path are stored.
pub proof fn lemma_blockage_stored(s: StoreView, path: Seq<Seq<char>>)
    requires
        s.wf(),
    ensures
        forall|k: int|
            0 <= k < s.first_blockage(path).len() ==> s.contains(#[trigger] s.first_blockage(path)[k]),
    decreases path.len(),
{
    if path.len() > 0 {
        lemma_unsatisfied_stored(s, path[0]);
        lemma_blockage_stored(s, path.skip(1));
        if s.unsatisfied_blockers(path[0]).len() > 0 {
            assert(s.first_blockage(path) == s.unsatisfied_blockers(path[0]));
        } else {
            assert(s.first_blockage(path) == s.first_blockage(path.skip(1)));
        }
    }
}

/// A copy of a path.
fn copy_path(path: &Vec<TaskId>) -> (r: Vec<TaskId>)
    ensures
        ids_view(r@) == ids_view(path@),
{
    crate::types::copy_ids(path)
}

/// The arrow that stands between two identifiers of a chain.
pub open spec fn arrow() -> Seq<char> {
    seq![' ', '-', '>', ' ']
}

/// The texts of `ids` in their order, with an arrow between each two.
pub open spec fn joined(ids: Seq<Seq<char>>) -> Seq<char>
    decreases ids.len(),
{
    if ids.len() == 0 {
        Seq::empty()
    } else if ids.len() == 1 {
        ids[0]
    } else {
        joined(ids.drop_last()) + arrow() + ids.last()
    }
}

/// What the refusal of a cycle says: the blockers of the cycle in the
/// order in which they wait for each other.
pub open spec fn cycle_message(chain: Seq<Seq<char>>) -> Seq<char> {
    "Blocker cycle detected: "@ + joined(chain)
}

/// The identifiers joined by arrows.
fn join_ids(ids: &Vec<TaskId>) -> (out: String)
    ensures
        out@ == joined(ids_view(ids@)),
{
    let mut out = String::new();
    let mut i: usize = 0;
    proof {
        reveal_strlit(" -> ");
    }
    assert(" -> "@ =~= arrow());
    assert(ids_view(ids@).take(0) =~= Seq::<Seq<char>>::empty());
    while i < ids.len()
        invariant
            i <= ids@.len(),
            " -> "@ == arrow(),
            out@ == joined(ids_view(ids@).take(i as int)),
        decreases ids@.len() - i,
    {
        let ghost before = ids_view(ids@).take(i as int);
        let ghost longer = ids_view(ids@).take(i + 1);
        assert(longer.drop_last() =~= before);
        assert(longer.last() == ids@[i as int]@);
        if i > 0 {
            out = out.concat(" -> ");
        }
        out = out.concat(ids[i].as_str());
        assert(out@ =~= joined(longer));
        i += 1;
    }
    assert(ids_view(ids@).take(ids@.len() as int) =~= ids_view(ids@));
    out
}

impl TaskService {
    /// Adds the unfinished leaves at or below `task` to `leaves`.
    #[verifier::loop_isolation(false)]
    fn collect_leaves_inner(
        &self,
        task: &Task,
        path: Vec<TaskId>,
        leaves: &mut Vec<Vec<TaskId>>,
        levels: usize,
    )
        requires
            self@.wf(),
        ensures
            paths_view(final(leaves)@) == paths_view(old(leaves)@) + self@.leaves_under(
                task@,
                ids_view(path@),
                levels as nat,
            ),
        decreases levels,
    {
        let ghost before = paths_view(leaves@);
        let ghost way = ids_view(path@);
        if task.is_finished_for_hierarchy() {
            assert(before + Seq::<Seq<Seq<char>>>::empty() =~= before);
            return ;
        }
        let children = self.store.get_children_ordered(&task.id);
        if children.len() == 0 || Self::all_tasks_finished(&children) || levels == 0 {
            leaves.push(path);
            assert(paths_view(leaves@) =~= before + seq![way]);
            return ;
        }
        let ghost kids = tasks_view(children@);
        let mut i: usize = 0;
        proof {
            assert(kids.skip(0) =~= kids);
            assert(before + self@.leaves_among(kids, way, (levels - 1) as nat) =~= before
                + self@.leaves_among(kids, way, (levels - 1) as nat));
        }
        while i < children.len()
            invariant
                i <= children@.len(),
                paths_view(leaves@) + self@.leaves_among(
                    kids.skip(i as int),
                    way,
                    (levels - 1) as nat,
                ) == before + self@.leaves_among(kids, way, (levels - 1) as nat),
            decreases children@.len() - i,
        {
            let ghost here = paths_view(leaves@);
            let mut child_path = copy_path(&path);
            child_path.push(children[i].id.clone());
            proof {
                assert(kids.skip(i as int)[0] == children@[i as int]@);
                assert(kids.skip(i as int).skip(1) =~= kids.skip(i + 1));
                assert(ids_view(child_path@) =~= way.push(children@[i as int]@.id));
            }
            self.collect_leaves_inner(&children[i], child_path, leaves, levels - 1);
            proof {
                let found = self@.leaves_under(
                    children@[i as int]@,
                    way.push(children@[i as int]@.id),
                    (levels - 1) as nat,
                );
                let later = self@.leaves_among(kids.skip(i + 1), way, (levels - 1) as nat);
                assert((here + found) + later =~= here + (found + later));
            }
            i += 1;
        }
        proof {
            assert(paths_view(leaves@) + Seq::<Seq<Seq<char>>>::empty() =~= paths_view(leaves@));
        }
    }

    /// The unfinished leaves at or below `root`, each as the path from
    /// `root` to it, in traversal order.
    fn collect_incomplete_leaves(&self, root: &Task) -> (leaves: Vec<Vec<TaskId>>)
        requires
            self@.wf(),
        ensures
            paths_view(leaves@) == self@.leaves_under(root@, seq![root@.id], max_depth() as nat),
    {
        let mut leaves: Vec<Vec<TaskId>> = Vec::new();
        let mut path: Vec<TaskId> = Vec::new();
        path.push(root.id.clone());
        assert(ids_view(path@) =~= seq![root@.id]);
        assert(paths_view(leaves@) =~= Seq::empty());
        self.collect_leaves_inner(root, path, &mut leaves, 2);
        assert(Seq::<Seq<Seq<char>>>::empty() + self@.leaves_under(root@, seq![root@.id], 2)
            =~= self@.leaves_under(root@, seq![root@.id], 2));
        leaves
    }

    /// The unsatisfied blockers of the first task along the path that has
    /// any.
    fn first_blockage_along_chain(&self, leaf_path: &Vec<TaskId>) -> (r: Vec<TaskId>)
        requires
            self@.wf(),
        ensures
            ids_view(r@) == self@.first_blockage(ids_view(leaf_path@)),
    {
        let ghost way = ids_view(leaf_path@);
        let mut i: usize = 0;
        proof {
            assert(way.skip(0) =~= way);
        }
        while i < leaf_path.len()
            invariant
                i <= leaf_path@.len(),
                self@.wf(),
                way == ids_view(leaf_path@),
                self@.first_blockage(way) == self@.first_blockage(way.skip(i as int)),
            decreases leaf_path@.len() - i,
        {
            proof {
                assert(way.skip(i as int)[0] == leaf_path@[i as int]@);
                assert(way.skip(i as int).skip(1) =~= way.skip(i + 1));
            }
            let unsatisfied = self.store.unsatisfied_blockers(&leaf_path[i]);
            assert(ids_view(unsatisfied@).len() == unsatisfied@.len());
            if unsatisfied.len() > 0 {
                return unsatisfied;
            }
            i += 1;
        }
        let none: Vec<TaskId> = Vec::new();
        assert(ids_view(none@) =~= Seq::empty());
        none
    }

    /// The stack holds stored tasks that are all different.
    pub open spec fn stack_ok(s: StoreView, stack: Seq<Seq<char>>) -> bool {
        &&& stack.no_duplicates()
        &&& forall|k: int| 0 <= k < stack.len() ==> s.contains(#[trigger] stack[k])
    }

    /// The task to start when `root` is asked for, with the blockers that
    /// were followed so far on `blocker_stack`.
    #[verifier::loop_isolation(false)]
    fn resolve_start_target_inner(&self, root: &TaskId, blocker_stack: &mut Vec<TaskId>) -> (r:
        Result<TaskId, OsError>)
        requires
            self@.wf(),
            Self::stack_ok(self@, ids_view(old(blocker_stack)@)),
        ensures
            answers(r, self@.start_target(root@, ids_view(old(blocker_stack)@)), root@),
            self@.start_target(root@, ids_view(old(blocker_stack)@)) is Nothing ==> ids_view(
                final(blocker_stack)@,
            ) == ids_view(old(blocker_stack)@),
        decreases self@.tasks.len() - old(blocker_stack)@.len(),
    {
        let ghost s = self@;
        let ghost stack = ids_view(blocker_stack@);
        let task = match self.store.get_task(root) {
            Some(t) => t,
            None => {
                return Err(OsError::TaskNotFound(root.clone()));
            },
        };
        let leaves = self.collect_incomplete_leaves(&task);
        let ghost all = paths_view(leaves@);
        let mut i: usize = 0;
        proof {
            assert(all.skip(0) =~= all);
            crate::graph::lemma_distinct_stored(s, stack);
            assert(stack.len() == blocker_stack@.len());
        }
        while i < leaves.len()
            invariant
                i <= leaves@.len(),
                ids_view(blocker_stack@) == stack,
                s.target_among_leaves(all, stack) == s.target_among_leaves(
                    all.skip(i as int),
                    stack,
                ),
            decreases leaves@.len() - i,
        {
            proof {
                assert(all.skip(i as int)[0] == ids_view(leaves@[i as int]@));
                assert(all.skip(i as int).skip(1) =~= all.skip(i + 1));
            }
            let blockers = self.first_blockage_along_chain(&leaves[i]);
            let ghost waiting = ids_view(blockers@);
            assert(waiting.len() == blockers@.len());
            if blockers.len() == 0 {
                let leaf = &leaves[i];
                if leaf.len() > 0 {
                    assert(ids_view(leaf@).last() == leaf@[leaf@.len() - 1]@);
                    return Ok(leaf[leaf.len() - 1].clone());
                }
                // A path holds its start at least: this is never reached.
                assert(ids_view(leaf@).len() == 0);
                proof {
                    lemma_leaves_not_empty(s, task@, seq![root@], 2);
                    assert(paths_view(leaves@)[i as int] == ids_view(leaf@));
                }
                return Ok(root.clone());
            }
            let mut j: usize = 0;
            proof {
                assert(waiting.skip(0) =~= waiting);
                lemma_blockage_stored(s, ids_view(leaves@[i as int]@));
            }
            while j < blockers.len()
                invariant
                    j <= blockers@.len(),
                    ids_view(blocker_stack@) == stack,
                    waiting == ids_view(blockers@),
                    s.target_among_blockers(waiting, stack) == s.target_among_blockers(
                        waiting.skip(j as int),
                        stack,
                    ),
                decreases blockers@.len() - j,
            {
                let blocker = &blockers[j];
                proof {
                    assert(waiting.skip(j as int)[0] == blocker@);
                    assert(waiting.skip(j as int).skip(1) =~= waiting.skip(j + 1));
                    assert(waiting[j as int] == blocker@);
                    assert(s.contains(blocker@));
                }
                if crate::graph::id_in(blocker_stack, blocker) {
                    let mut chain = copy_path(blocker_stack);
                    chain.push(blocker.clone());
                    assert(ids_view(chain@) =~= stack.push(blocker@));
                    let message = String::from_str("Blocker cycle detected: ").concat(
                        join_ids(&chain).as_str(),
                    );
                    return Err(OsError::BlockerCycleDetected { message, chain });
                }
                blocker_stack.push(blocker.clone());
                proof {
                    let longer = ids_view(blocker_stack@);
                    assert(longer =~= stack.push(blocker@));
                    assert(Self::stack_ok(s, longer)) by {
                        assert forall|a: int, b: int|
                            0 <= a < longer.len() && 0 <= b < longer.len() && a != b implies longer[a]
                            != longer[b] by {
                            if a == stack.len() {
                                assert(stack.contains(stack[b]));
                            } else if b == stack.len() {
                                assert(stack.contains(stack[a]));
                            }
                        }
                    }
                    crate::graph::lemma_distinct_stored(s, longer);
                }
                let ghost longer = ids_view(blocker_stack@);
                let ghost through = s.start_target(blocker@, longer);
                match self.resolve_start_target_inner(blocker, blocker_stack) {
                    Ok(found) => {
                        return Ok(found);
                    },
                    Err(OsError::NoStartableTask { .. }) => {},
                    Err(e) => {
                        return Err(e);
                    },
                }
                assert(through is Nothing);
                assert(ids_view(blocker_stack@) == longer);
                let ghost full = blocker_stack@;
                let _ = blocker_stack.pop();
                proof {
                    assert(blocker_stack@ =~= full.drop_last());
                    assert(ids_view(blocker_stack@) =~= longer.drop_last());
                    assert(longer.drop_last() =~= stack);
                }
                j += 1;
            }
            i += 1;
        }
        Err(
            OsError::NoStartableTask {
                message: String::from_str("No startable task found under ").concat(root.as_str()),
                requested: root.clone(),
            },
        )
    }

    /// The task to start when `requested_root` is asked for: the first
    /// unfinished leaf under it that waits for nothing, or what following
    /// the blockers leads to.
    pub fn resolve_start_target(&self, requested_root: &TaskId) -> (r: Result<TaskId, OsError>)
        requires
            self@.wf(),
        ensures
            answers(r, self@.start_target(requested_root@, Seq::empty()), requested_root@),
    {
        let mut blocker_stack: Vec<TaskId> = Vec::new();
        assert(ids_view(blocker_stack@) =~= Seq::empty());
        self.resolve_start_target_inner(requested_root, &mut blocker_stack)
    }
}

/// Every path to a leaf holds at least what the path it grew from held.
pub proof fn lemma_leaves_not_empty(s: StoreView, t: TaskView, path: Seq<Seq<char>>, levels: nat)
    requires
        path.len() > 0,
    ensures
        forall|k: int|
            0 <= k < s.leaves_under(t, path, levels).len() ==> (#[trigger] s.leaves_under(
                t,
                path,
                levels,
            )[k]).len() > 0,
    decreases levels, 0nat, 0nat,
{
    let out = s.leaves_under(t, path, levels);
    if !t.is_finished_for_hierarchy() {
        let children = s.children_ordered(t.id);
        if !(children.len() == 0 || all_finished(children) || levels == 0) {
            lemma_leaves_among_not_empty(s, children, path, (levels - 1) as nat);
            assert(out == s.leaves_among(children, path, (levels - 1) as nat));
        } else {
            assert(out == seq![path]);
            assert(out[0] == path);
        }
    } else {
        assert(out.len() == 0);
    }
}

/// Every path to a leaf holds at least what the path it grew from held.
pub proof fn lemma_leaves_among_not_empty(
    s: StoreView,
    tasks: Seq<TaskView>,
    path: Seq<Seq<char>>,
    levels: nat,
)
    requires
        path.len() > 0,
    ensures
        forall|k: int|
            0 <= k < s.leaves_among(tasks, path, levels).len() ==> (#[trigger] s.leaves_among(
                tasks,
                path,
                levels,
            )[k]).len() > 0,
    decreases levels, 1nat, tasks.len(),
{
    let out = s.leaves_among(tasks, path, levels);
    if tasks.len() > 0 {
        let first = s.leaves_under(tasks[0], path.push(tasks[0].id), levels);
        let rest = s.leaves_among(tasks.skip(1), path, levels);
        lemma_leaves_not_empty(s, tasks[0], path.push(tasks[0].id), levels);
        lemma_leaves_among_not_empty(s, tasks.skip(1), path, levels);
        assert(out == first + rest);
        assert forall|k: int| 0 <= k < out.len() implies (#[trigger] out[k]).len() > 0 by {
            if k < first.len() {
                assert(out[k] == first[k]);
            } else {
                assert(out[k] == rest[k - first.len()]);
            }
        }
    } else {
        assert(out.len() == 0);
    }
}

/// The children of a task, in traversal order, are stored tasks with
/// the task as their parent; the roots are stored tasks without parent.
pub proof fn lemma_children_members(s: StoreView, id: Seq<char>)
    requires
        s.wf(),
    ensures
        forall|k: int|
            0 <= k < s.children_ordered(id).len() ==> {
                let c = #[trigger] s.children_ordered(id)[k];
                s.contains(c.id) && s.task(c.id) == c && s.parent_of(c.id) == Some(id)
            },
        forall|k: int|
            0 <= k < s.roots().len() ==> {
                let c = #[trigger] s.roots()[k];
                s.contains(c.id) && s.task(c.id) == c && s.parent_of(c.id) is None
            },
{
    let p = |t: TaskView| t.parent_id == Some(id);
    crate::order::lemma_sorted_members(s.tasks.filter(p));
    crate::model::lemma_filter_members(s.tasks, p);
    assert forall|k: int| 0 <= k < s.children_ordered(id).len() implies {
        let c = #[trigger] s.children_ordered(id)[k];
        s.contains(c.id) && s.task(c.id) == c && s.parent_of(c.id) == Some(id)
    } by {
        let c = s.children_ordered(id)[k];
        assert(s.tasks.filter(p).contains(c));
        let j = choose|j: int| 0 <= j < s.tasks.filter(p).len() && s.tasks.filter(p)[j] == c;
        assert(p(s.tasks.filter(p)[j]));
        assert(s.tasks.contains(c));
        let i = choose|i: int| 0 <= i < s.tasks.len() && s.tasks[i] == c;
        crate::model::lemma_task_at(s, i);
    }
    let q = |t: TaskView| t.parent_id is None;
    crate::order::lemma_sorted_members(s.tasks.filter(q));
    crate::model::lemma_filter_members(s.tasks, q);
    assert forall|k: int| 0 <= k < s.roots().len() implies {
        let c = #[trigger] s.roots()[k];
        s.contains(c.id) && s.task(c.id) == c && s.parent_of(c.id) is None
    } by {
        let c = s.roots()[k];
        assert(s.tasks.filter(q).contains(c));
        let j = choose|j: int| 0 <= j < s.tasks.filter(q).len() && s.tasks.filter(q)[j] == c;
        assert(q(s.tasks.filter(q)[j]));
        assert(s.tasks.contains(c));
        let i = choose|i: int| 0 <= i < s.tasks.len() && s.tasks[i] == c;
        crate::model::lemma_task_at(s, i);
    }
}

/// A child waits through its ancestors exactly where its parent is
/// effectively blocked.
pub proof fn lemma_blocked_through_parent(s: StoreView, child: Seq<char>, parent: Seq<char>)
    requires
        s.wf(),
        s.contains(child),
        s.parent_of(child) == Some(parent),
    ensures
        s.ancestor_blocked(child) <==> s.effectively_blocked(parent),
{
    crate::model::lemma_ancestors_stored(s, child);
    crate::model::lemma_ancestors_of_child(s, child);
    let above = s.ancestors(child);
    let higher = s.ancestors(parent);
    assert(above == seq![parent] + higher);
    if s.ancestor_blocked(child) {
        let k = choose|k: int| 0 <= k < above.len() && !s.own_unblocked(#[trigger] above[k]);
        if k > 0 {
            assert(above[k] == higher[k - 1]);
        }
    }
    if s.effectively_blocked(parent) {
        if !s.own_unblocked(parent) {
            assert(above[0] == parent);
        } else {
            let k = choose|k: int| 0 <= k < higher.len() && !s.own_unblocked(#[trigger] higher[k]);
            assert(above[k + 1] == higher[k]);
        }
    }
}

/// The task `x` is a leaf for the search: it has no child, or only
/// children that are completed or cancelled.
pub open spec fn is_leaf(s: StoreView, x: Seq<char>) -> bool {
    s.children_ordered(x).len() == 0 || all_finished(s.children_ordered(x))
}

/// What is a task or lies below it lies below the parent of the task.
pub proof fn lemma_below_parent(s: StoreView, c: Seq<char>, parent: Seq<char>, x: Seq<char>)
    requires
        s.wf(),
        s.contains(x),
        s.parent_of(c) == Some(parent),
        x == c || s.is_ancestor(c, x),
    ensures
        s.is_ancestor(parent, x),
{
    crate::model::lemma_ancestors_stored(s, x);
    let above = s.ancestors(x);
    if x == c {
        assert(above[0] == parent);
    } else {
        let k = choose|k: int| 0 <= k < above.len() && above[k] == c;
        assert(above[k + 1] == parent);
    }
}

/// What the search under a task finds is a stored task that is open for
/// work, a leaf at or below the task, and it is effectively blocked
/// exactly where an ancestor of the task that the search started from
/// waits for a blocker.
pub proof fn lemma_ready_under(s: StoreView, t: TaskView, above_unblocked: bool, levels: nat)
    requires
        s.wf(),
        s.contains(t.id),
        s.task(t.id) == t,
    ensures
        s.ready_under(t, above_unblocked, levels) matches Some(x) ==> {
            &&& above_unblocked
            &&& s.contains(x)
            &&& s.task(x).is_active_for_work()
            &&& s.effectively_blocked(x) <==> s.ancestor_blocked(t.id)
            &&& x == t.id || s.is_ancestor(t.id, x)
            &&& is_leaf(s, x)
        },
    decreases levels, 0nat, 0nat,
{
    if t.is_active_for_work() {
        let unblocked = above_unblocked && s.own_unblocked(t.id);
        let children = s.children_ordered(t.id);
        if children.len() > 0 && levels > 0 {
            lemma_children_members(s, t.id);
            lemma_first_ready(s, children, t.id, unblocked, (levels - 1) as nat);
        }
    }
}

/// What the search among the children of a task finds is a stored task
/// that is open for work, and it is effectively blocked exactly where the
/// task is.
pub proof fn lemma_first_ready(
    s: StoreView,
    tasks: Seq<TaskView>,
    parent: Seq<char>,
    above_unblocked: bool,
    levels: nat,
)
    requires
        s.wf(),
        forall|k: int|
            0 <= k < tasks.len() ==> {
                let c = #[trigger] tasks[k];
                s.contains(c.id) && s.task(c.id) == c && s.parent_of(c.id) == Some(parent)
            },
    ensures
        s.first_ready(tasks, above_unblocked, levels) matches Some(x) ==> {
            &&& above_unblocked
            &&& s.contains(x)
            &&& s.task(x).is_active_for_work()
            &&& s.effectively_blocked(x) <==> s.effectively_blocked(parent)
            &&& s.is_ancestor(parent, x)
            &&& is_leaf(s, x)
        },
    decreases levels, 1nat, tasks.len(),
{
    if tasks.len() > 0 {
        let c = tasks[0];
        assert(s.contains(c.id) && s.task(c.id) == c && s.parent_of(c.id) == Some(parent));
        lemma_ready_under(s, c, above_unblocked, levels);
        lemma_blocked_through_parent(s, c.id, parent);
        if let Some(x) = s.ready_under(c, above_unblocked, levels) {
            lemma_below_parent(s, c.id, parent, x);
        }
        let rest = tasks.skip(1);
        assert forall|k: int| 0 <= k < rest.len() implies {
            let d = #[trigger] rest[k];
            s.contains(d.id) && s.task(d.id) == d && s.parent_of(d.id) == Some(parent)
        } by {
            assert(rest[k] == tasks[k + 1]);
        }
        lemma_first_ready(s, rest, parent, above_unblocked, levels);
    }
}

/// What the search among the roots finds is a stored task that is open
/// for work and not effectively blocked.
pub proof fn lemma_first_ready_root(s: StoreView, tasks: Seq<TaskView>, levels: nat)
    requires
        s.wf(),
        forall|k: int|
            0 <= k < tasks.len() ==> {
                let c = #[trigger] tasks[k];
                s.contains(c.id) && s.task(c.id) == c && s.parent_of(c.id) is None
            },
    ensures
        s.first_ready(tasks, true, levels) matches Some(x) ==> {
            &&& s.contains(x)
            &&& s.task(x).is_active_for_work()
            &&& !s.effectively_blocked(x)
            &&& is_leaf(s, x)
        },
    decreases tasks.len(),
{
    if tasks.len() > 0 {
        let c = tasks[0];
        assert(s.contains(c.id) && s.task(c.id) == c && s.parent_of(c.id) is None);
        lemma_ready_under(s, c, true, levels);
        assert(s.ancestors(c.id).len() == 0);
        let rest = tasks.skip(1);
        assert forall|k: int| 0 <= k < rest.len() implies {
            let d = #[trigger] rest[k];
            s.contains(d.id) && s.task(d.id) == d && s.parent_of(d.id) is None
        } by {
            assert(rest[k] == tasks[k + 1]);
        }
        lemma_first_ready_root(s, rest, levels);
    }
}

/// Each task of `path` but the first has the one before it as its parent.
pub open spec fn linked(s: StoreView, path: Seq<Seq<char>>) -> bool {
    forall|k: int| 0 < k < path.len() ==> s.parent_of(#[trigger] path[k]) == Some(path[k - 1])
}

/// `path` leads down to an unfinished leaf: its last task is stored,
/// neither completed nor cancelled, and has no child or only children that
/// are completed or cancelled.
pub open spec fn is_leaf_path(s: StoreView, path: Seq<Seq<char>>) -> bool {
    &&& path.len() > 0
    &&& linked(s, path)
    &&& s.contains(path.last())
    &&& !s.task(path.last()).is_finished_for_hierarchy()
    &&& s.children_ordered(path.last()).len() == 0 || all_finished(
        s.children_ordered(path.last()),
    )
}

/// No task of `path` has a blocker that is not satisfied.
pub open spec fn is_clear(s: StoreView, path: Seq<Seq<char>>) -> bool {
    forall|k: int| 0 <= k < path.len() ==> s.unsatisfied_blockers(#[trigger] path[k]).len() == 0
}

/// The task `x` can be started as far as the search sees: it is an
/// unfinished leaf at the end of a path of parents and children on which
/// no task has an unsatisfied blocker.
pub open spec fn startable(s: StoreView, x: Seq<char>) -> bool {
    exists|path: Seq<Seq<char>>| is_leaf_path(s, path) && is_clear(s, path) && path.last() == x
}

/// The leaves under a task are leaf paths that go on from `path`.
pub proof fn lemma_leaves_under(s: StoreView, t: TaskView, path: Seq<Seq<char>>, levels: nat)
    requires
        s.wf(),
        s.contains(t.id),
        s.task(t.id) == t,
        path.len() > 0,
        path.last() == t.id,
        linked(s, path),
        s.depth(t.id) + levels >= max_depth(),
    ensures
        forall|i: int|
            0 <= i < s.leaves_under(t, path, levels).len() ==> is_leaf_path(
                s,
                #[trigger] s.leaves_under(t, path, levels)[i],
            ),
    decreases levels, 0nat, 0nat,
{
    if !t.is_finished_for_hierarchy() {
        let children = s.children_ordered(t.id);
        lemma_children_members(s, t.id);
        if children.len() == 0 || all_finished(children) {
            assert(s.leaves_under(t, path, levels) =~= seq![path]);
            assert(is_leaf_path(s, path));
        } else if levels == 0 {
            let c = children[0];
            crate::model::lemma_ancestors_stored(s, c.id);
            crate::model::lemma_ancestors_of_child(s, c.id);
            assert(false);
        } else {
            lemma_leaves_among(s, children, t.id, path, (levels - 1) as nat);
            assert(s.leaves_under(t, path, levels) == s.leaves_among(
                children,
                path,
                (levels - 1) as nat,
            ));
        }
    }
}

/// The leaves under the children of a task are leaf paths.
pub proof fn lemma_leaves_among(
    s: StoreView,
    tasks: Seq<TaskView>,
    parent: Seq<char>,
    path: Seq<Seq<char>>,
    levels: nat,
)
    requires
        s.wf(),
        path.len() > 0,
        path.last() == parent,
        linked(s, path),
        s.depth(parent) + 1 + levels >= max_depth(),
        forall|k: int|
            0 <= k < tasks.len() ==> {
                let c = #[trigger] tasks[k];
                s.contains(c.id) && s.task(c.id) == c && s.parent_of(c.id) == Some(parent)
            },
    ensures
        forall|i: int|
            0 <= i < s.leaves_among(tasks, path, levels).len() ==> is_leaf_path(
                s,
                #[trigger] s.leaves_among(tasks, path, levels)[i],
            ),
    decreases levels, 1nat, tasks.len(),
{
    if tasks.len() > 0 {
        let c = tasks[0];
        let longer = path.push(c.id);
        assert(s.contains(c.id) && s.task(c.id) == c && s.parent_of(c.id) == Some(parent));
        crate::model::lemma_ancestors_stored(s, c.id);
        crate::model::lemma_ancestors_of_child(s, c.id);
        assert(linked(s, longer)) by {
            assert forall|k: int| 0 < k < longer.len() implies s.parent_of(#[trigger] longer[k])
                == Some(longer[k - 1]) by {
                if k < path.len() {
                    assert(longer[k] == path[k]);
                }
            }
        }
        lemma_leaves_under(s, c, longer, levels);
        let rest = tasks.skip(1);
        assert forall|k: int| 0 <= k < rest.len() implies {
            let d = #[trigger] rest[k];
            s.contains(d.id) && s.task(d.id) == d && s.parent_of(d.id) == Some(parent)
        } by {
            assert(rest[k] == tasks[k + 1]);
        }
        lemma_leaves_among(s, rest, parent, path, levels);
        let first = s.leaves_under(c, longer, levels);
        let others = s.leaves_among(rest, path, levels);
        assert(s.leaves_among(tasks, path, levels) == first + others);
        assert forall|i: int| 0 <= i < (first + others).len() implies is_leaf_path(
            s,
            #[trigger] (first + others)[i],
        ) by {
            if i < first.len() {
                assert((first + others)[i] == first[i]);
            } else {
                assert((first + others)[i] == others[i - first.len()]);
            }
        }
    }
}

/// A path without a first blockage is clear.
pub proof fn lemma_clear_path(s: StoreView, path: Seq<Seq<char>>)
    requires
        s.first_blockage(path).len() == 0,
    ensures
        is_clear(s, path),
    decreases path.len(),
{
    if path.len() > 0 {
        lemma_clear_path(s, path.skip(1));
        assert forall|k: int| 0 <= k < path.len() implies s.unsatisfied_blockers(
            #[trigger] path[k],
        ).len() == 0 by {
            if k > 0 {
                assert(path.skip(1)[k - 1] == path[k]);
            }
        }
    }
}

/// What the search from a task finds can be started.
pub proof fn lemma_start_target(s: StoreView, root: Seq<char>, stack: Seq<Seq<char>>)
    requires
        s.wf(),
    ensures
        s.start_target(root, stack) matches Resolution::Found(x) ==> startable(s, x),
    decreases s.tasks.len() - stack.len(), 2nat, 0nat,
{
    if s.contains(root) {
        crate::model::lemma_task_of(s, root);
        let start = seq![root];
        lemma_leaves_under(s, s.task(root), start, max_depth() as nat);
        lemma_target_among_leaves(
            s,
            s.leaves_under(s.task(root), start, max_depth() as nat),
            stack,
        );
    }
}

/// What the search along leaf paths finds can be started.
pub proof fn lemma_target_among_leaves(
    s: StoreView,
    leaves: Seq<Seq<Seq<char>>>,
    stack: Seq<Seq<char>>,
)
    requires
        s.wf(),
        forall|i: int| 0 <= i < leaves.len() ==> is_leaf_path(s, #[trigger] leaves[i]),
    ensures
        s.target_among_leaves(leaves, stack) matches Resolution::Found(x) ==> startable(s, x),
    decreases s.tasks.len() - stack.len(), 1nat, leaves.len(),
{
    if leaves.len() > 0 {
        let blockers = s.first_blockage(leaves[0]);
        if blockers.len() == 0 {
            lemma_clear_path(s, leaves[0]);
            assert(is_leaf_path(s, leaves[0]));
        } else {
            lemma_target_among_blockers(s, blockers, stack);
            let rest = leaves.skip(1);
            assert forall|i: int| 0 <= i < rest.len() implies is_leaf_path(s, #[trigger] rest[i]) by {
                assert(rest[i] == leaves[i + 1]);
            }
            lemma_target_among_leaves(s, rest, stack);
        }
    }
}

/// What the search through blockers finds can be started.
pub proof fn lemma_target_among_blockers(
    s: StoreView,
    blockers: Seq<Seq<char>>,
    stack: Seq<Seq<char>>,
)
    requires
        s.wf(),
    ensures
        s.target_among_blockers(blockers, stack) matches Resolution::Found(x) ==> startable(s, x),
    decreases s.tasks.len() - stack.len(), 0nat, blockers.len(),
{
    if blockers.len() > 0 && !stack.contains(blockers[0]) && stack.len() < s.tasks.len() {
        lemma_start_target(s, blockers[0], stack.push(blockers[0]));
        lemma_target_among_blockers(s, blockers.skip(1), stack);
    }
}

/// The task that is started when `root` is asked for is an unfinished
/// leaf, a task without children or with children that are all completed
/// or cancelled, and it lies at the end of a path of parents and children
/// on which no task has an unsatisfied blocker.
pub proof fn law_start_target_is_startable(s: StoreView, root: Seq<char>)
    requires
        s.wf(),
    ensures
        s.start_target(root, Seq::empty()) matches Resolution::Found(x) ==> {
            &&& startable(s, x)
            &&& s.contains(x)
            &&& !s.task(x).is_finished_for_hierarchy()
            &&& s.unsatisfied_blockers(x).len() == 0
        },
{
    lemma_start_target(s, root, Seq::empty());
    if let Resolution::Found(x) = s.start_target(root, Seq::empty()) {
        let path = choose|path: Seq<Seq<char>>|
            is_leaf_path(s, path) && is_clear(s, path) && path.last() == x;
        assert(s.unsatisfied_blockers(path[path.len() - 1]).len() == 0);
    }
}

/// Readiness is consistent: the next ready task, under a task or among all
/// tasks, is stored, open for work and never effectively blocked; it has
/// no child, or only children that are completed or cancelled; and where a
/// task was asked for, it is that task or lies below it.
pub proof fn law_next_ready_is_unblocked(s: StoreView, root: Option<Seq<char>>)
    requires
        s.wf(),
        root is Some ==> s.contains(root->0),
    ensures
        s.next_ready(root) matches Some(x) ==> {
            &&& s.contains(x)
            &&& s.task(x).is_active_for_work()
            &&& !s.effectively_blocked(x)
            &&& is_leaf(s, x)
            &&& root matches Some(id) ==> x == id || s.is_ancestor(id, x)
        },
{
    match root {
        Some(id) => {
            crate::model::lemma_task_of(s, id);
            lemma_ready_under(s, s.task(id), !s.ancestor_blocked(id), max_depth() as nat);
        },
        None => {
            lemma_children_members(s, Seq::empty());
            lemma_first_ready_root(s, s.roots(), max_depth() as nat);
        },
    }
}

} // verus!
