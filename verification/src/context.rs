//! The context of a task for whoever works on it: its own context with
//! those of its parent and its milestone, and the learnings of all three.

use vstd::prelude::*;

use crate::id::TaskId;
use crate::model::StoreView;
use crate::order::tasks_view;
use crate::store::Store;
use crate::types::{ids_view, learnings_view, opt_str_view, Learning, LearningView, Task, TaskView};

verus! {

/// The context of a task with those of its parent task and its
/// milestone, where these are not empty.
#[derive(Debug, Clone)]
pub struct ProgressiveContext {
    pub own: String,
    pub parent: Option<String>,
    pub milestone: Option<String>,
}

/// The learnings of a task, of its parent task and of its milestone.
#[derive(Debug, Clone)]
pub struct InheritedLearnings {
    pub own: Vec<Learning>,
    pub parent: Vec<Learning>,
    pub milestone: Vec<Learning>,
}

/// A task with its progressive context and the learnings it inherits.
#[derive(Debug, Clone)]
pub struct TaskWithContext {
    pub task: Task,
    pub progressive_context: ProgressiveContext,
    pub inherited_learnings: InheritedLearnings,
}

/// `text`, unless it is empty.
pub open spec fn unless_empty(text: Option<Seq<char>>) -> Option<Seq<char>> {
    if text is Some && text->0.len() > 0 {
        text
    } else {
        None
    }
}

impl StoreView {
    /// The task `id` followed by its ancestors, nearest first; nothing for
    /// a task that is not stored.
    pub open spec fn chain_of(self, id: Seq<char>) -> Seq<TaskView> {
        if self.contains(id) {
            seq![self.task(id)] + self.ancestors(id).map_values(|a: Seq<char>| self.task(a))
        } else {
            Seq::empty()
        }
    }

    /// The context of the first of `ids` that lies at the depth `depth`.
    pub open spec fn first_context_at(self, ids: Seq<Seq<char>>, depth: int) -> Option<Seq<char>>
        decreases ids.len(),
    {
        if ids.len() == 0 {
            None
        } else if self.depth(ids[0]) == depth {
            Some(self.task(ids[0]).context)
        } else {
            self.first_context_at(ids.skip(1), depth)
        }
    }

    /// The context of the last of `ids` that lies at the depth `depth`.
    pub open spec fn last_context_at(self, ids: Seq<Seq<char>>, depth: int) -> Option<Seq<char>>
        decreases ids.len(),
    {
        if ids.len() == 0 {
            None
        } else if self.depth(ids.last()) == depth {
            Some(self.task(ids.last()).context)
        } else {
            self.last_context_at(ids.drop_last(), depth)
        }
    }

    /// The learnings of those of `ids` that lie at the depth `depth`, in
    /// the order of `ids`.
    pub open spec fn learnings_at(self, ids: Seq<Seq<char>>, depth: int) -> Seq<LearningView>
        decreases ids.len(),
    {
        if ids.len() == 0 {
            Seq::empty()
        } else {
            self.learnings_at(ids.drop_last(), depth) + if self.depth(ids.last()) == depth {
                self.learnings_of(ids.last())
            } else {
                Seq::empty()
            }
        }
    }

    /// The ancestors of a stored task; nothing for a task that is not
    /// stored.
    pub open spec fn ancestors_if_stored(self, id: Seq<char>) -> Seq<Seq<char>> {
        if self.contains(id) {
            self.ancestors(id)
        } else {
            Seq::empty()
        }
    }
}

/// The task `task_id` followed by its ancestors, nearest first.
pub fn get_ancestor_chain(store: &Store, task_id: &TaskId) -> (chain: Vec<Task>)
    requires
        store@.wf(),
    ensures
        tasks_view(chain@) == store@.chain_of(task_id@),
        forall|k: int| 0 <= k < chain@.len() ==> store.is_hydrated(#[trigger] chain@[k]),
{
    let mut chain: Vec<Task> = Vec::new();
    let task = match store.get_task(task_id) {
        Some(t) => t,
        None => {
            assert(tasks_view(chain@) =~= Seq::empty());
            return chain;
        },
    };
    chain.push(task);
    let above = store.ancestor_ids(task_id);
    let ghost all = ids_view(above@);
    let ghost s = store@;
    let ghost f = |a: Seq<char>| s.task(a);
    proof {
        crate::model::lemma_ancestors_stored(s, task_id@);
        assert(tasks_view(chain@) =~= seq![s.task(task_id@)] + all.take(0).map_values(f));
    }
    let mut k: usize = 0;
    while k < above.len()
        invariant
            k <= above@.len(),
            store@.wf(),
            s == store@,
            all == ids_view(above@),
            f == |a: Seq<char>| s.task(a),
            forall|j: int| 0 <= j < all.len() ==> s.contains(#[trigger] all[j]),
            tasks_view(chain@) == seq![s.task(task_id@)] + all.take(k as int).map_values(f),
            forall|j: int| 0 <= j < chain@.len() ==> store.is_hydrated(#[trigger] chain@[j]),
        decreases above@.len() - k,
    {
        assert(s.contains(all[k as int]));
        assert(all[k as int] == above@[k as int]@);
        let ghost before = chain@;
        if let Some(t) = store.get_task(&above[k]) {
            chain.push(t);
            proof {
                assert(all.take(k + 1) =~= all.take(k as int).push(all[k as int]));
                assert(tasks_view(chain@) =~= tasks_view(before).push(s.task(all[k as int])));
                assert(all.take(k + 1).map_values(f) =~= all.take(k as int).map_values(f).push(
                    s.task(all[k as int]),
                ));
            }
        }
        k += 1;
    }
    proof {
        assert(all.take(k as int) =~= all);
    }
    chain
}

/// `text`, unless it is empty.
fn non_empty(text: Option<String>) -> (r: Option<String>)
    ensures
        opt_str_view(r) == unless_empty(opt_str_view(text)),
{
    match text {
        Some(t) => if t.as_str().unicode_len() > 0 {
            Some(t)
        } else {
            None
        },
        None => None,
    }
}

/// The context of `task` with the context of its first ancestor that is a
/// task and the context of its milestone, each only where it is not
/// empty. The own context is taken from `task` as it is handed in.
pub fn build_progressive_context(store: &Store, task: &Task) -> (r: ProgressiveContext)
    requires
        store@.wf(),
    ensures
        r.own@ == task@.context,
        opt_str_view(r.parent) == unless_empty(
            store@.first_context_at(store@.ancestors_if_stored(task@.id), 1),
        ),
        opt_str_view(r.milestone) == unless_empty(
            store@.last_context_at(store@.ancestors_if_stored(task@.id), 0),
        ),
{
    let chain = get_ancestor_chain(store, &task.id);
    let ghost s = store@;
    let ghost above = s.ancestors_if_stored(task@.id);
    let own = task.context.clone();
    let mut parent: Option<String> = None;
    let mut milestone: Option<String> = None;
    let mut i: usize = 1;
    proof {
        assert(tasks_view(chain@).len() == chain@.len());
        if s.contains(task@.id) {
            crate::model::lemma_ancestors_stored(s, task@.id);
            assert(chain@.len() == 1 + above.len());
        } else {
            assert(chain@.len() == 0);
        }
        assert(above.skip(0) =~= above);
        assert(above.take(0) =~= Seq::empty());
    }
    while i < chain.len()
        invariant
            1 <= i,
            chain@.len() > 0 ==> i <= chain@.len(),
            chain@.len() == 0 ==> parent is None && milestone is None,
            store@.wf(),
            s == store@,
            above == s.ancestors_if_stored(task@.id),
            chain@.len() == 0 || chain@.len() == 1 + above.len(),
            chain@.len() > 0 ==> s.contains(task@.id),
            tasks_view(chain@) == s.chain_of(task@.id),
            forall|j: int| 0 <= j < above.len() ==> s.contains(#[trigger] above[j]),
            i <= chain@.len() ==> (parent is None ==> s.first_context_at(above, 1)
                == s.first_context_at(above.skip(i - 1), 1)),
            i <= chain@.len() ==> (parent is Some ==> opt_str_view(parent) == s.first_context_at(
                above,
                1,
            )),
            i <= chain@.len() ==> opt_str_view(milestone) == s.last_context_at(
                above.take(i - 1),
                0,
            ),
        decreases chain@.len() - i,
    {
        let ancestor = &chain[i];
        proof {
            let a = above[i - 1];
            assert(tasks_view(chain@)[i as int] == ancestor@);
            assert(s.chain_of(task@.id)[i as int] == s.task(a));
            crate::model::lemma_task_of(s, a);
            assert(ancestor@.id == a);
            assert(above.skip(i - 1)[0] == a);
            assert(above.skip(i - 1).skip(1) =~= above.skip(i as int));
            assert(above.take(i as int).last() == a);
            assert(above.take(i as int).drop_last() =~= above.take(i - 1));
        }
        let depth = store.get_task_depth(&ancestor.id);
        if depth == 1 && parent.is_none() {
            parent = Some(ancestor.context.clone());
        } else if depth == 0 {
            milestone = Some(ancestor.context.clone());
        }
        i += 1;
    }
    proof {
        if chain@.len() > 0 {
            assert(above.take(i - 1) =~= above);
            assert(above.skip(i - 1) =~= Seq::empty());
        } else {
            assert(above =~= Seq::empty());
        }
    }
    ProgressiveContext { own, parent: non_empty(parent), milestone: non_empty(milestone) }
}

/// Adds copies of `from` to the end of `to`.
fn append_learnings(to: &mut Vec<Learning>, from: &Vec<Learning>)
    ensures
        learnings_view(final(to)@) == learnings_view(old(to)@) + learnings_view(from@),
{
    let ghost start = learnings_view(to@);
    let mut i: usize = 0;
    proof {
        assert(learnings_view(from@).take(0) =~= Seq::empty());
        assert(start + Seq::<LearningView>::empty() =~= start);
    }
    while i < from.len()
        invariant
            i <= from@.len(),
            start == learnings_view(old(to)@),
            learnings_view(to@) == start + learnings_view(from@).take(i as int),
        decreases from@.len() - i,
    {
        let ghost before = to@;
        to.push(from[i].copy());
        proof {
            assert(learnings_view(to@) =~= learnings_view(before).push(from@[i as int]@));
            assert(learnings_view(from@).take(i + 1) =~= learnings_view(from@).take(i as int).push(
                from@[i as int]@,
            ));
        }
        i += 1;
    }
    proof {
        assert(learnings_view(from@).take(i as int) =~= learnings_view(from@));
    }
}

/// The learnings of `task`, of its ancestors that are tasks, and of its
/// milestone.
pub fn build_inherited_learnings(store: &Store, task: &Task) -> (r: InheritedLearnings)
    requires
        store@.wf(),
    ensures
        learnings_view(r.own@) == store@.learnings_of(task@.id),
        learnings_view(r.parent@) == store@.learnings_at(
            store@.ancestors_if_stored(task@.id),
            1,
        ),
        learnings_view(r.milestone@) == store@.learnings_at(
            store@.ancestors_if_stored(task@.id),
            0,
        ),
{
    let ghost s = store@;
    let ghost above = s.ancestors_if_stored(task@.id);
    let own = store.list_learnings(&task.id);
    let mut parent: Vec<Learning> = Vec::new();
    let mut milestone: Vec<Learning> = Vec::new();
    let ids = if store.task_exists(&task.id) {
        store.ancestor_ids(&task.id)
    } else {
        Vec::new()
    };
    proof {
        assert(ids_view(ids@) =~= above);
        assert(above.take(0) =~= Seq::empty());
        assert(learnings_view(parent@) =~= Seq::empty());
        assert(learnings_view(milestone@) =~= Seq::empty());
    }
    let mut i: usize = 0;
    while i < ids.len()
        invariant
            i <= ids@.len(),
            store@.wf(),
            s == store@,
            ids_view(ids@) == above,
            learnings_view(parent@) == s.learnings_at(above.take(i as int), 1),
            learnings_view(milestone@) == s.learnings_at(above.take(i as int), 0),
        decreases ids@.len() - i,
    {
        proof {
            assert(above[i as int] == ids@[i as int]@);
            assert(above.take(i + 1).last() == above[i as int]);
            assert(above.take(i + 1).drop_last() =~= above.take(i as int));
        }
        let depth = store.get_task_depth(&ids[i]);
        let learnings = store.list_learnings(&ids[i]);
        let ghost p0 = learnings_view(parent@);
        let ghost m0 = learnings_view(milestone@);
        if depth == 1 {
            append_learnings(&mut parent, &learnings);
            assert(m0 + Seq::<LearningView>::empty() =~= m0);
        } else if depth == 0 {
            append_learnings(&mut milestone, &learnings);
            assert(p0 + Seq::<LearningView>::empty() =~= p0);
        } else {
            assert(m0 + Seq::<LearningView>::empty() =~= m0);
            assert(p0 + Seq::<LearningView>::empty() =~= p0);
        }
        i += 1;
    }
    proof {
        assert(above.take(i as int) =~= above);
    }
    InheritedLearnings { own, parent, milestone }
}

/// `task` with its progressive context and the learnings it inherits.
pub fn get_task_with_context(store: &Store, task: Task) -> (r: TaskWithContext)
    requires
        store@.wf(),
    ensures
        r.task == task,
        r.progressive_context.own@ == task@.context,
        opt_str_view(r.progressive_context.parent) == unless_empty(
            store@.first_context_at(store@.ancestors_if_stored(task@.id), 1),
        ),
        opt_str_view(r.progressive_context.milestone) == unless_empty(
            store@.last_context_at(store@.ancestors_if_stored(task@.id), 0),
        ),
        learnings_view(r.inherited_learnings.own@) == store@.learnings_of(task@.id),
        learnings_view(r.inherited_learnings.parent@) == store@.learnings_at(
            store@.ancestors_if_stored(task@.id),
            1,
        ),
        learnings_view(r.inherited_learnings.milestone@) == store@.learnings_at(
            store@.ancestors_if_stored(task@.id),
            0,
        ),
{
    let progressive_context = build_progressive_context(store, &task);
    let inherited_learnings = build_inherited_learnings(store, &task);
    TaskWithContext { task, progressive_context, inherited_learnings }
}

} // verus!
