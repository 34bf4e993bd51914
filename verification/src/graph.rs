//! The graph of blocker edges: paths, reachability and the search that
//! keeps it free of cycles.

use vstd::prelude::*;

use crate::id::TaskId;
use crate::model::{BlockerView, StoreView};
use crate::store::Store;
use crate::types::ids_view;

verus! {

impl StoreView {
    /// Each task of `path` waits for the next one.
    pub open spec fn is_blocker_path(self, path: Seq<Seq<char>>) -> bool {
        &&& path.len() >= 1
        &&& forall|i: int| 0 <= i < path.len() - 1 ==> self.has_edge(#[trigger] path[i], path[i + 1])
    }

    /// Following blocker edges from `from` leads to `to`, in no step or
    /// more.
    pub open spec fn reaches(self, from: Seq<char>, to: Seq<char>) -> bool {
        exists|path: Seq<Seq<char>>|
            #[trigger] self.is_blocker_path(path) && path.first() == from && path.last() == to
    }

    /// No task waits for itself, directly or through other tasks.
    pub open spec fn blockers_acyclic(self) -> bool {
        forall|path: Seq<Seq<char>>|
            #[trigger] self.is_blocker_path(path) && path.len() >= 2 ==> path.first()
                != path.last()
    }

    /// Following blocker edges from `from` leads to `to` in one step or
    /// more.
    pub open spec fn leads(self, from: Seq<char>, to: Seq<char>) -> bool {
        exists|path: Seq<Seq<char>>|
            #[trigger] self.is_blocker_path(path) && path.len() >= 2 && path.first() == from
                && path.last() == to
    }

    /// Every blocker of every task of `closed` is in `closed` or in `open`.
    pub open spec fn edges_stay_within(self, closed: Seq<Seq<char>>, open: Seq<Seq<char>>) -> bool {
        forall|k: int, w: Seq<char>|
            0 <= k < closed.len() && #[trigger] self.has_edge(closed[k], w) ==> closed.contains(w)
                || open.contains(w)
    }
}

/// The blockers of a task are what its edges lead to.
pub proof fn lemma_blockers_of(s: StoreView, id: Seq<char>)
    ensures
        forall|w: Seq<char>| s.blockers_of(id).contains(w) <==> #[trigger] s.has_edge(id, w),
{
    let p = |e: BlockerView| e.task_id == id;
    let f = |e: BlockerView| e.blocker_id;
    let kept = s.blockers.filter(p);
    crate::model::lemma_filter_members(s.blockers, p);
    assert forall|w: Seq<char>| s.blockers_of(id).contains(w) <==> #[trigger] s.has_edge(id, w) by {
        if s.blockers_of(id).contains(w) {
            let k = choose|k: int| 0 <= k < kept.map_values(f).len() && kept.map_values(f)[k] == w;
            assert(p(kept[k]));
            assert(s.blockers.contains(kept[k]));
            let i = choose|i: int| 0 <= i < s.blockers.len() && s.blockers[i] == kept[k];
            assert(s.blockers[i].task_id == id && s.blockers[i].blocker_id == w);
        }
        if s.has_edge(id, w) {
            let i = choose|i: int|
                0 <= i < s.blockers.len() && (#[trigger] s.blockers[i]).task_id == id
                    && s.blockers[i].blocker_id == w;
            assert(p(s.blockers[i]));
            assert(kept.contains(s.blockers[i]));
            let k = choose|k: int| 0 <= k < kept.len() && kept[k] == s.blockers[i];
            assert(kept.map_values(f)[k] == w);
        }
    }
}

/// What is reached stays reached along one more edge.
pub proof fn lemma_reaches_step(s: StoreView, from: Seq<char>, via: Seq<char>, to: Seq<char>)
    requires
        s.reaches(from, via),
        s.has_edge(via, to),
    ensures
        s.reaches(from, to),
{
    let path = choose|path: Seq<Seq<char>>|
        #[trigger] s.is_blocker_path(path) && path.first() == from && path.last() == via;
    let longer = path.push(to);
    assert forall|i: int| 0 <= i < longer.len() - 1 implies s.has_edge(
        #[trigger] longer[i],
        longer[i + 1],
    ) by {
        if i < path.len() - 1 {
            assert(s.has_edge(path[i], path[i + 1]));
        }
    }
    assert(s.is_blocker_path(longer) && longer.first() == from && longer.last() == to);
}

/// Every task reaches itself.
pub proof fn lemma_reaches_itself(s: StoreView, id: Seq<char>)
    ensures
        s.reaches(id, id),
{
    let path = seq![id];
    assert(s.is_blocker_path(path) && path.first() == id && path.last() == id);
}

/// A path that starts in a set of tasks that no edge leaves stays in it.
pub proof fn lemma_path_stays(s: StoreView, closed: Seq<Seq<char>>, path: Seq<Seq<char>>, k: int)
    requires
        s.edges_stay_within(closed, Seq::empty()),
        s.is_blocker_path(path),
        closed.contains(path.first()),
        0 <= k < path.len(),
    ensures
        closed.contains(path[k]),
    decreases k,
{
    if k > 0 {
        lemma_path_stays(s, closed, path, k - 1);
        let j = choose|j: int| 0 <= j < closed.len() && closed[j] == path[k - 1];
        assert(s.has_edge(path[k - 1], path[k]));
        assert(s.has_edge(closed[j], path[k]));
    }
}

/// Tasks that are stored and all different are at most as many as the
/// stored tasks.
pub proof fn lemma_distinct_stored(s: StoreView, ids: Seq<Seq<char>>)
    requires
        ids.no_duplicates(),
        forall|k: int| 0 <= k < ids.len() ==> s.contains(#[trigger] ids[k]),
    ensures
        ids.len() <= s.tasks.len(),
{
    let all = s.tasks.map_values(|t: crate::types::TaskView| t.id);
    ids.unique_seq_to_set();
    all.lemma_cardinality_of_set();
    vstd::seq_lib::seq_to_set_is_finite(all);
    assert(ids.to_set().subset_of(all.to_set())) by {
        assert forall|x: Seq<char>| ids.to_set().contains(x) implies all.to_set().contains(x) by {
            let k = choose|k: int| 0 <= k < ids.len() && ids[k] == x;
            assert(s.contains(ids[k]));
            let i = choose|i: int| 0 <= i < s.tasks.len() && (#[trigger] s.tasks[i]).id == x;
            assert(all[i] == x);
        }
    }
    vstd::set_lib::lemma_len_subset(ids.to_set(), all.to_set());
}

/// Whether `id` is among `ids`.
pub fn id_in(ids: &Vec<TaskId>, id: &TaskId) -> (r: bool)
    ensures
        r == ids_view(ids@).contains(id@),
{
    let mut i: usize = 0;
    while i < ids.len()
        invariant
            i <= ids@.len(),
            forall|j: int| 0 <= j < i ==> ids_view(ids@)[j] != id@,
        decreases ids@.len() - i,
    {
        if ids[i] == *id {
            assert(ids_view(ids@)[i as int] == id@);
            return true;
        }
        i += 1;
    }
    false
}

/// From a task that is not stored no blocker edge leads anywhere.
pub proof fn lemma_reaches_from_outside(s: StoreView, from: Seq<char>, to: Seq<char>)
    requires
        s.wf(),
        !s.contains(from),
    ensures
        s.reaches(from, to) <==> from == to,
{
    reveal(StoreView::blockers_ok);
    if s.reaches(from, to) {
        let path = choose|path: Seq<Seq<char>>|
            #[trigger] s.is_blocker_path(path) && path.first() == from && path.last() == to;
        if path.len() >= 2 {
            assert(s.has_edge(path[0], path[1]));
            let i = choose|i: int|
                0 <= i < s.blockers.len() && (#[trigger] s.blockers[i]).task_id == path[0]
                    && s.blockers[i].blocker_id == path[1];
            assert(s.contains(s.blockers[i].task_id));
        }
    }
    if from == to {
        lemma_reaches_itself(s, from);
    }
}

/// Whether the edge from `task_id` to `new_blocker_id` would close a cycle
/// of blocker edges: whether following blockers from `new_blocker_id`
/// leads to `task_id`.
pub fn would_create_blocker_cycle(store: &Store, task_id: &TaskId, new_blocker_id: &TaskId) -> (r:
    bool)
    requires
        store@.wf(),
    ensures
        r == store@.reaches(new_blocker_id@, task_id@),
{
    let ghost s = store@;
    let ghost start = new_blocker_id@;
    if !store.task_exists(new_blocker_id) {
        proof {
            lemma_reaches_from_outside(s, start, task_id@);
        }
        return *new_blocker_id == *task_id;
    }
    // the tasks that were looked at are kept in a list: of a hash set keyed
    // by an identifier that holds text nothing can be proved
    let mut visited: Vec<TaskId> = Vec::new();
    let mut stack: Vec<TaskId> = Vec::new();
    stack.push(new_blocker_id.clone());
    proof {
        lemma_reaches_itself(s, start);
        assert(ids_view(stack@)[0] == start);
        lemma_distinct_stored(s, ids_view(visited@));
    }
    while stack.len() > 0
        invariant
            s == store@,
            s.wf(),
            start == new_blocker_id@,
            forall|k: int| 0 <= k < stack@.len() ==> s.reaches(start, #[trigger] ids_view(stack@)[k]),
            forall|k: int|
                0 <= k < stack@.len() ==> s.contains(#[trigger] ids_view(stack@)[k]),
            forall|k: int|
                0 <= k < visited@.len() ==> s.reaches(start, #[trigger] ids_view(visited@)[k]),
            forall|k: int|
                0 <= k < visited@.len() ==> s.contains(#[trigger] ids_view(visited@)[k]),
            ids_view(visited@).no_duplicates(),
            !ids_view(visited@).contains(task_id@),
            s.edges_stay_within(ids_view(visited@), ids_view(stack@)),
            ids_view(visited@).contains(start) || ids_view(stack@).contains(start),
            visited@.len() <= s.tasks.len(),
        decreases s.tasks.len() - visited@.len(), stack@.len(),
    {
        let ghost closed = ids_view(visited@);
        let ghost open = ids_view(stack@);
        let current = stack.pop().unwrap();
        proof {
            assert(open[open.len() - 1] == current@);
            assert(ids_view(stack@) =~= open.drop_last());
            assert forall|w: Seq<char>| open.contains(w) implies ids_view(stack@).contains(w) || w
                == current@ by {
                let j = choose|j: int| 0 <= j < open.len() && open[j] == w;
                if j < open.len() - 1 {
                    assert(ids_view(stack@)[j] == w);
                }
            }
        }
        if current == *task_id {
            return true;
        }
        if id_in(&visited, &current) {
            continue ;
        }
        visited.push(current.clone());
        proof {
            assert(ids_view(visited@) =~= closed.push(current@));
            assert(ids_view(visited@)[closed.len() as int] == current@);
            assert(ids_view(visited@).no_duplicates());
            lemma_distinct_stored(s, ids_view(visited@));
            assert forall|w: Seq<char>| closed.contains(w) implies ids_view(visited@).contains(
                w,
            ) by {
                let j = choose|j: int| 0 <= j < closed.len() && closed[j] == w;
                assert(ids_view(visited@)[j] == w);
            }
        }
        let blockers = store.get_blockers(&current);
        let ghost next = ids_view(blockers@);
        let ghost parked = ids_view(stack@);
        proof {
            lemma_blockers_of(s, current@);
        }
        let mut i: usize = 0;
        while i < blockers.len()
            invariant
                i <= blockers@.len(),
                s == store@,
                s.wf(),
                next == ids_view(blockers@),
                forall|w: Seq<char>| next.contains(w) <==> #[trigger] s.has_edge(current@, w),
                s.reaches(start, current@),
                forall|k: int|
                    0 <= k < stack@.len() ==> s.reaches(start, #[trigger] ids_view(stack@)[k]),
                forall|k: int|
                    0 <= k < stack@.len() ==> s.contains(#[trigger] ids_view(stack@)[k]),
                forall|w: Seq<char>| parked.contains(w) ==> ids_view(stack@).contains(w),
                forall|k: int| 0 <= k < i ==> ids_view(stack@).contains(#[trigger] next[k]),
            decreases blockers@.len() - i,
        {
            let ghost before = ids_view(stack@);
            proof {
                assert(next.contains(next[i as int]));
                assert(s.has_edge(current@, next[i as int]));
                lemma_reaches_step(s, start, current@, next[i as int]);
                reveal(StoreView::blockers_ok);
                let e = choose|e: int|
                    0 <= e < s.blockers.len() && (#[trigger] s.blockers[e]).task_id == current@
                        && s.blockers[e].blocker_id == next[i as int];
                assert(s.contains(s.blockers[e].blocker_id));
            }
            stack.push(blockers[i].clone());
            proof {
                assert(ids_view(stack@) =~= before.push(next[i as int]));
                assert(ids_view(stack@)[before.len() as int] == next[i as int]);
                assert forall|w: Seq<char>| before.contains(w) implies ids_view(stack@).contains(
                    w,
                ) by {
                    let j = choose|j: int| 0 <= j < before.len() && before[j] == w;
                    assert(ids_view(stack@)[j] == w);
                }
            }
            i += 1;
        }
        proof {
            let now_closed = ids_view(visited@);
            let now_open = ids_view(stack@);
            assert forall|k: int, w: Seq<char>|
                0 <= k < now_closed.len() && #[trigger] s.has_edge(
                    now_closed[k],
                    w,
                ) implies now_closed.contains(w) || now_open.contains(w) by {
                if k < closed.len() {
                    assert(now_closed[k] == closed[k]);
                    assert(closed.contains(w) || open.contains(w));
                    if open.contains(w) && !closed.contains(w) {
                        if w == current@ {
                            assert(now_closed[closed.len() as int] == w);
                        } else {
                            assert(parked.contains(w));
                        }
                    }
                } else {
                    assert(now_closed[k] == current@);
                    assert(next.contains(w));
                    let j = choose|j: int| 0 <= j < next.len() && next[j] == w;
                    assert(now_open.contains(next[j]));
                }
            }
            assert(now_closed.contains(start) || now_open.contains(start)) by {
                if closed.contains(start) {
                } else if start == current@ {
                    assert(now_closed[closed.len() as int] == start);
                } else {
                    assert(open.contains(start));
                    assert(parked.contains(start));
                }
            }
        }
    }
    proof {
        let closed = ids_view(visited@);
        assert(ids_view(stack@) =~= Seq::empty());
        assert(closed.contains(start)) by {
            if ids_view(stack@).contains(start) {
                let j = choose|j: int| 0 <= j < ids_view(stack@).len() && ids_view(stack@)[j] == start;
            }
        }
        assert(s.edges_stay_within(closed, Seq::empty())) by {
            assert forall|k: int, w: Seq<char>|
                0 <= k < closed.len() && #[trigger] s.has_edge(closed[k], w) implies closed.contains(
                w,
            ) || Seq::<Seq<char>>::empty().contains(w) by {
                assert(closed.contains(w) || ids_view(stack@).contains(w));
            }
        }
        if s.reaches(start, task_id@) {
            let path = choose|path: Seq<Seq<char>>|
                #[trigger] s.is_blocker_path(path) && path.first() == start && path.last()
                    == task_id@;
            lemma_path_stays(s, closed, path, path.len() - 1);
        }
    }
    false
}

/// What is reached in steps stays reached along one more edge.
pub proof fn lemma_leads_step(s: StoreView, from: Seq<char>, via: Seq<char>, to: Seq<char>)
    requires
        s.reaches(from, via),
        s.has_edge(via, to),
    ensures
        s.leads(from, to),
{
    let path = choose|path: Seq<Seq<char>>|
        #[trigger] s.is_blocker_path(path) && path.first() == from && path.last() == via;
    let longer = path.push(to);
    assert forall|i: int| 0 <= i < longer.len() - 1 implies s.has_edge(
        #[trigger] longer[i],
        longer[i + 1],
    ) by {
        if i < path.len() - 1 {
            assert(s.has_edge(path[i], path[i + 1]));
        }
    }
    assert(s.is_blocker_path(longer) && longer.len() >= 2 && longer.first() == from
        && longer.last() == to);
}

/// What leads somewhere reaches it.
pub proof fn lemma_leads_reaches(s: StoreView, from: Seq<char>, to: Seq<char>)
    requires
        s.leads(from, to),
    ensures
        s.reaches(from, to),
{
    let path = choose|path: Seq<Seq<char>>|
        #[trigger] s.is_blocker_path(path) && path.len() >= 2 && path.first() == from
            && path.last() == to;
    assert(s.is_blocker_path(path) && path.first() == from && path.last() == to);
}

/// Reaching goes on: what reaches a task reaches what the task reaches.
pub proof fn lemma_reaches_on(s: StoreView, a: Seq<char>, b: Seq<char>, c: Seq<char>)
    requires
        s.reaches(a, b),
        s.reaches(b, c),
    ensures
        s.reaches(a, c),
{
    let p = choose|path: Seq<Seq<char>>|
        #[trigger] s.is_blocker_path(path) && path.first() == a && path.last() == b;
    let q = choose|path: Seq<Seq<char>>|
        #[trigger] s.is_blocker_path(path) && path.first() == b && path.last() == c;
    let joined = p + q.skip(1);
    assert forall|i: int| 0 <= i < joined.len() - 1 implies s.has_edge(
        #[trigger] joined[i],
        joined[i + 1],
    ) by {
        if i < p.len() - 1 {
            assert(s.has_edge(p[i], p[i + 1]));
        } else if i == p.len() - 1 {
            assert(joined[i] == q[0]);
            assert(joined[i + 1] == q[1]);
            assert(s.has_edge(q[0], q[1]));
        } else {
            let j = i - p.len() + 1;
            assert(joined[i] == q[j]);
            assert(joined[i + 1] == q[j + 1]);
            assert(s.has_edge(q[j], q[j + 1]));
        }
    }
    assert(s.is_blocker_path(joined) && joined.first() == a && joined.last() == c);
}

/// The prefix of a path is a path.
proof fn lemma_path_prefix(s: StoreView, path: Seq<Seq<char>>, n: int)
    requires
        s.is_blocker_path(path),
        1 <= n <= path.len(),
    ensures
        s.is_blocker_path(path.take(n)),
{
    assert forall|i: int| 0 <= i < path.take(n).len() - 1 implies s.has_edge(
        #[trigger] path.take(n)[i],
        path.take(n)[i + 1],
    ) by {
        assert(s.has_edge(path[i], path[i + 1]));
    }
}

/// A store without cycles of blocker edges has none after edges were
/// taken away.
pub proof fn law_fewer_edges_stay_acyclic(pre: StoreView, post: StoreView)
    requires
        pre.blockers_acyclic(),
        forall|a: Seq<char>, b: Seq<char>| #[trigger] post.has_edge(a, b) ==> pre.has_edge(a, b),
    ensures
        post.blockers_acyclic(),
{
    assert forall|path: Seq<Seq<char>>| #[trigger]
        post.is_blocker_path(path) && path.len() >= 2 implies path.first() != path.last() by {
        assert forall|i: int| 0 <= i < path.len() - 1 implies pre.has_edge(
            #[trigger] path[i],
            path[i + 1],
        ) by {
            assert(post.has_edge(path[i], path[i + 1]));
        }
        assert(pre.is_blocker_path(path));
    }
}

/// Where a path of the store with the new edge from `task` to `blocker`
/// leads: to what the old edges lead to, or through the new edge.
proof fn lemma_path_through_new_edge(
    s: StoreView,
    task: Seq<char>,
    blocker: Seq<char>,
    path: Seq<Seq<char>>,
)
    requires
        !s.reaches(blocker, task),
        s.with_edge(task, blocker).is_blocker_path(path),
        path.len() >= 2,
    ensures
        s.leads(path.first(), path.last()) || (s.reaches(path.first(), task) && s.reaches(
            blocker,
            path.last(),
        )),
    decreases path.len(),
{
    let n = s.with_edge(task, blocker);
    crate::model::lemma_with_edge_edges(s, task, blocker);
    let from = path.first();
    let to = path.last();
    let via = path[path.len() - 2];
    assert(n.has_edge(via, to));
    let old_edge = s.has_edge(via, to);
    if !old_edge {
        let i = choose|i: int|
            0 <= i < n.blockers.len() && (#[trigger] n.blockers[i]).task_id == via
                && n.blockers[i].blocker_id == to;
        if i < s.blockers.len() {
            assert(s.blockers[i] == n.blockers[i]);
        }
        assert(via == task && to == blocker);
    }
    if path.len() == 2 {
        lemma_reaches_itself(s, from);
        if old_edge {
            lemma_leads_step(s, from, from, to);
        } else {
            lemma_reaches_itself(s, blocker);
        }
    } else {
        let shorter = path.drop_last();
        lemma_path_prefix(n, path, path.len() - 1);
        assert(shorter =~= path.take(path.len() - 1));
        lemma_path_through_new_edge(s, task, blocker, shorter);
        assert(shorter.last() == via);
        if s.leads(from, via) {
            lemma_leads_reaches(s, from, via);
            if old_edge {
                lemma_leads_step(s, from, via, to);
            } else {
                lemma_reaches_itself(s, blocker);
            }
        } else {
            if old_edge {
                lemma_reaches_step(s, blocker, via, to);
            } else {
                assert(s.reaches(blocker, task));
            }
        }
    }
}

/// A store without cycles of blocker edges has none after the edge from
/// `task` to `blocker` was added, where following blockers from `blocker`
/// does not lead to `task`.
pub proof fn law_new_edge_stays_acyclic(s: StoreView, task: Seq<char>, blocker: Seq<char>)
    requires
        s.blockers_acyclic(),
        !s.reaches(blocker, task),
    ensures
        s.with_edge(task, blocker).blockers_acyclic(),
{
    let n = s.with_edge(task, blocker);
    assert forall|path: Seq<Seq<char>>| #[trigger]
        n.is_blocker_path(path) && path.len() >= 2 implies path.first() != path.last() by {
        if path.first() == path.last() {
            let u = path.first();
            lemma_path_through_new_edge(s, task, blocker, path);
            if s.leads(u, u) {
                let cycle = choose|p: Seq<Seq<char>>|
                    #[trigger] s.is_blocker_path(p) && p.len() >= 2 && p.first() == u && p.last()
                        == u;
                assert(false);
            } else {
                lemma_reaches_on(s, blocker, u, task);
            }
        }
    }
}

/// A store without cycles of blocker edges has none after a task under a
/// fresh identifier was added that waits for stored tasks.
pub proof fn law_new_task_stays_acyclic(s: StoreView, t: crate::types::TaskView, blockers: Seq<Seq<char>>)
    requires
        s.wf(),
        s.blockers_acyclic(),
        !s.contains(t.id),
        forall|k: int| 0 <= k < blockers.len() ==> s.contains(#[trigger] blockers[k]),
    ensures
        s.inserted(t, blockers).blockers_acyclic(),
{
    reveal(StoreView::blockers_ok);
    let n = s.inserted(t, blockers);
    crate::model::lemma_with_edges(s.blockers, t.id, blockers);
    // No edge leads to the new task, and every edge from another task was there before.
    assert forall|a: Seq<char>, b: Seq<char>| #[trigger] n.has_edge(a, b) implies b != t.id && (a
        != t.id ==> s.has_edge(a, b)) by {
        let i = choose|i: int|
            0 <= i < n.blockers.len() && (#[trigger] n.blockers[i]).task_id == a
                && n.blockers[i].blocker_id == b;
        if i < s.blockers.len() {
            assert(n.blockers.take(s.blockers.len() as int)[i] == s.blockers[i]);
            assert(s.contains(s.blockers[i].blocker_id));
            assert(s.blockers[i].task_id == a && s.blockers[i].blocker_id == b);
        } else {
            assert(blockers.contains(n.blockers[i].blocker_id));
            let k = choose|k: int| 0 <= k < blockers.len() && blockers[k] == b;
            assert(s.contains(blockers[k]));
        }
    }
    assert forall|path: Seq<Seq<char>>| #[trigger]
        n.is_blocker_path(path) && path.len() >= 2 implies path.first() != path.last() by {
        if path.first() == path.last() {
            let last = path.len() - 1;
            assert(n.has_edge(path[last - 1], path[last]));
            assert(path[0] != t.id);
            assert forall|i: int| 0 <= i < path.len() - 1 implies s.has_edge(
                #[trigger] path[i],
                path[i + 1],
            ) by {
                assert(n.has_edge(path[i], path[i + 1]));
                if i > 0 {
                    assert(n.has_edge(path[i - 1], path[i]));
                }
            }
            assert(s.is_blocker_path(path));
        }
    }
}

} // verus!
