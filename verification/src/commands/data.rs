//! The data commands: the snapshot of a store as a versioned document,
//! and the store that a document restores.

use vstd::prelude::*;

use crate::error::OsError;
use crate::id::TaskId;
use crate::model::{BlockerView, StoreView};
use crate::order::tasks_view;
use crate::store::{edges_view, BlockerRelation, Store};
use crate::types::{
    copy_opt_id, copy_opt_string, learnings_view, opt_id_view, opt_str_view, FilterView, Learning,
    LearningView, ListTasksFilter, Task, TaskView, Timestamp,
};

verus! {

pub enum DataCommand {
    /// Writes all tasks, learnings and blocker edges to a file.
    Export { output: Option<String> },
    /// Reads tasks, learnings and blocker edges from a file; with `clear`
    /// what is stored is removed first.
    Import { file: String, clear: bool },
}

pub enum DataResult {
    Exported { path: String, tasks: usize, learnings: usize },
    Imported { tasks: usize, learnings: usize },
}

/// A task as a document holds it: the whole record with its lifecycle
/// flags and timestamps, without bookmark and start commit.
#[derive(Debug, Clone)]
pub struct ExportTask {
    pub id: TaskId,
    pub parent_id: Option<TaskId>,
    pub description: String,
    pub context: String,
    pub result: Option<String>,
    pub priority: i32,
    pub completed: bool,
    pub completed_at: Option<Timestamp>,
    pub created_at: Timestamp,
    pub updated_at: Timestamp,
    pub started_at: Option<Timestamp>,
    pub commit_sha: Option<String>,
    pub cancelled: bool,
    pub cancelled_at: Option<Timestamp>,
    pub archived: bool,
    pub archived_at: Option<Timestamp>,
}

impl View for ExportTask {
    type V = TaskView;

    /// The record that the document holds: it has neither bookmark nor
    /// start commit.
    open spec fn view(&self) -> TaskView {
        TaskView {
            id: self.id@,
            parent_id: opt_id_view(self.parent_id),
            description: self.description@,
            context: self.context@,
            result: opt_str_view(self.result),
            priority: self.priority,
            completed: self.completed,
            completed_at: self.completed_at,
            created_at: self.created_at,
            updated_at: self.updated_at,
            started_at: self.started_at,
            commit_sha: opt_str_view(self.commit_sha),
            bookmark: None,
            start_commit: None,
            cancelled: self.cancelled,
            cancelled_at: self.cancelled_at,
            archived: self.archived,
            archived_at: self.archived_at,
        }
    }
}

/// The document that a store is exported to and imported from.
#[derive(Debug, Clone)]
pub struct ExportData {
    pub version: String,
    pub exported_at: Timestamp,
    pub tasks: Vec<ExportTask>,
    pub learnings: Vec<Learning>,
    pub blockers: Vec<BlockerRelation>,
}

/// The version of the document format.
pub open spec fn format_version() -> Seq<char> {
    "1.0.0"@
}

/// The record without bookmark and start commit.
pub open spec fn exported(t: TaskView) -> TaskView {
    TaskView { bookmark: None, start_commit: None, ..t }
}

/// The views of a list of exported tasks, in order.
pub open spec fn export_view(v: Seq<ExportTask>) -> Seq<TaskView> {
    Seq::new(v.len(), |i: int| v[i]@)
}

/// The filter that lets every task through.
pub open spec fn everything() -> FilterView {
    FilterView { parent_id: None, ready: false, completed: None, depth: None, archived: None }
}

impl StoreView {
    /// The learnings of each of `tasks` in turn, those of one task oldest
    /// first.
    pub open spec fn learnings_among(self, tasks: Seq<TaskView>) -> Seq<LearningView>
        decreases tasks.len(),
    {
        if tasks.len() == 0 {
            Seq::empty()
        } else {
            self.learnings_among(tasks.drop_last()) + self.learnings_of(tasks.last().id)
        }
    }

    /// The blocker edges of each of `tasks` in turn, those of one task in
    /// stored order.
    pub open spec fn edges_among(self, tasks: Seq<TaskView>) -> Seq<BlockerView>
        decreases tasks.len(),
    {
        if tasks.len() == 0 {
            Seq::empty()
        } else {
            self.edges_among(tasks.drop_last()) + self.blockers_of(tasks.last().id).map_values(
                |b: Seq<char>| (BlockerView { task_id: tasks.last().id, blocker_id: b }),
            )
        }
    }
}

/// The task as a document holds it.
fn export_task(t: &Task) -> (r: ExportTask)
    ensures
        r@ == exported(t@),
{
    ExportTask {
        id: t.id.clone(),
        parent_id: copy_opt_id(&t.parent_id),
        description: t.description.clone(),
        context: t.context.clone(),
        result: copy_opt_string(&t.result),
        priority: t.priority,
        completed: t.completed,
        completed_at: t.completed_at,
        created_at: t.created_at,
        updated_at: t.updated_at,
        started_at: t.started_at,
        commit_sha: copy_opt_string(&t.commit_sha),
        cancelled: t.cancelled,
        cancelled_at: t.cancelled_at,
        archived: t.archived,
        archived_at: t.archived_at,
    }
}

/// The snapshot of the store at the time `now`: every task in traversal
/// order, archived tasks too, without bookmark and start commit; then
/// the learnings and the blocker edges of the tasks in that order.
pub fn export_snapshot(store: &Store, now: Timestamp) -> (data: ExportData)
    requires
        store@.wf(),
    ensures
        data.version@ == format_version(),
        data.exported_at == now,
        export_view(data.tasks@) == store@.listed(everything()).map_values(
            |t: TaskView| exported(t),
        ),
        learnings_view(data.learnings@) == store@.learnings_among(store@.listed(everything())),
        edges_view(data.blockers@) == store@.edges_among(store@.listed(everything())),
{
    let filter = ListTasksFilter {
        parent_id: None,
        ready: false,
        completed: None,
        depth: None,
        archived: None,
    };
    let listed = store.list_tasks(&filter);
    let ghost s = store@;
    let ghost all = tasks_view(listed@);
    let ghost f = |t: TaskView| exported(t);
    let mut tasks: Vec<ExportTask> = Vec::new();
    let mut learnings: Vec<Learning> = Vec::new();
    let mut blockers: Vec<BlockerRelation> = Vec::new();
    let mut i: usize = 0;
    proof {
        assert(all.take(0) =~= Seq::empty());
        assert(export_view(tasks@) =~= all.take(0).map_values(f));
        assert(learnings_view(learnings@) =~= Seq::empty());
        assert(edges_view(blockers@) =~= Seq::empty());
    }
    while i < listed.len()
        invariant
            i <= listed@.len(),
            store@.wf(),
            s == store@,
            all == tasks_view(listed@),
            f == |t: TaskView| exported(t),
            forall|k: int| 0 <= k < listed@.len() ==> store.is_hydrated(#[trigger] listed@[k]),
            export_view(tasks@) == all.take(i as int).map_values(f),
            learnings_view(learnings@) == s.learnings_among(all.take(i as int)),
            edges_view(blockers@) == s.edges_among(all.take(i as int)),
        decreases listed@.len() - i,
    {
        let t = &listed[i];
        let ghost record = t@;
        proof {
            assert(all[i as int] == record);
            assert(all.take(i + 1).drop_last() =~= all.take(i as int));
            assert(all.take(i + 1).last() == record);
            assert(store.is_hydrated(listed@[i as int]));
        }
        let ghost before = tasks@;
        tasks.push(export_task(t));
        proof {
            assert(export_view(tasks@) =~= export_view(before).push(exported(record)));
            assert(all.take(i + 1).map_values(f) =~= all.take(i as int).map_values(f).push(
                exported(record),
            ));
        }
        let own = store.list_learnings(&t.id);
        let ghost held = learnings_view(learnings@);
        let mut k: usize = 0;
        proof {
            assert(learnings_view(own@).take(0) =~= Seq::empty());
            assert(held + Seq::<LearningView>::empty() =~= held);
        }
        while k < own.len()
            invariant
                k <= own@.len(),
                learnings_view(learnings@) == held + learnings_view(own@).take(k as int),
            decreases own@.len() - k,
        {
            let ghost so_far = learnings@;
            learnings.push(own[k].copy());
            proof {
                assert(learnings_view(learnings@) =~= learnings_view(so_far).push(own@[k as int]@));
                assert(learnings_view(own@).take(k + 1) =~= learnings_view(own@).take(
                    k as int,
                ).push(own@[k as int]@));
            }
            k += 1;
        }
        proof {
            assert(learnings_view(own@).take(k as int) =~= learnings_view(own@));
        }
        let ghost edges = edges_view(blockers@);
        let ghost g = |b: Seq<char>| (BlockerView { task_id: record.id, blocker_id: b });
        let ghost waits = crate::types::ids_view(t.blocked_by@);
        let mut j: usize = 0;
        proof {
            assert(waits.take(0).map_values(g) =~= Seq::empty());
            assert(edges + Seq::<BlockerView>::empty() =~= edges);
        }
        while j < t.blocked_by.len()
            invariant
                j <= t.blocked_by@.len(),
                waits == crate::types::ids_view(t.blocked_by@),
                g == |b: Seq<char>| (BlockerView { task_id: record.id, blocker_id: b }),
                record == t@,
                edges_view(blockers@) == edges + waits.take(j as int).map_values(g),
            decreases t.blocked_by@.len() - j,
        {
            let ghost so_far = blockers@;
            blockers.push(
                BlockerRelation { task_id: t.id.clone(), blocker_id: t.blocked_by[j].clone() },
            );
            proof {
                let edge = BlockerView { task_id: record.id, blocker_id: waits[j as int] };
                assert(edges_view(blockers@) =~= edges_view(so_far).push(edge));
                assert(waits.take(j + 1).map_values(g) =~= waits.take(j as int).map_values(g).push(
                    edge,
                ));
            }
            j += 1;
        }
        proof {
            assert(waits.take(j as int) =~= waits);
        }
        i += 1;
    }
    proof {
        assert(all.take(i as int) =~= all);
    }
    ExportData {
        version: String::from_str("1.0.0"),
        exported_at: now,
        tasks,
        learnings,
        blockers,
    }
}

// ----- import -----

/// The parent that the first of `tasks` with the identifier `id` names.
pub open spec fn doc_parent(tasks: Seq<TaskView>, id: Seq<char>) -> Option<Seq<char>>
    decreases tasks.len(),
{
    if tasks.len() == 0 {
        None
    } else if tasks[0].id == id {
        tasks[0].parent_id
    } else {
        doc_parent(tasks.skip(1), id)
    }
}

/// The depth of a task within a document: the number of parents above
/// it, counted up to three.
pub open spec fn doc_depth(tasks: Seq<TaskView>, id: Seq<char>) -> int {
    crate::model::chain(|x: Seq<char>| doc_parent(tasks, x), id).len() as int
}

/// The tasks of a document in the order in which they are restored:
/// those without parent first, then their children, then the children of
/// those, then what lies deeper; within one depth in the order of the
/// document.
pub open spec fn depth_ordered(tasks: Seq<TaskView>) -> Seq<TaskView> {
    tasks.filter(|t: TaskView| doc_depth(tasks, t.id) == 0) + tasks.filter(
        |t: TaskView| doc_depth(tasks, t.id) == 1,
    ) + tasks.filter(|t: TaskView| doc_depth(tasks, t.id) == 2) + tasks.filter(
        |t: TaskView| doc_depth(tasks, t.id) == 3,
    )
}

/// Some task of `tasks` has the identifier `id`.
pub open spec fn names_task(tasks: Seq<TaskView>, id: Seq<char>) -> bool {
    exists|i: int| 0 <= i < tasks.len() && (#[trigger] tasks[i]).id == id
}

/// Some learning of `learnings` has the identifier `id`.
pub open spec fn names_learning(learnings: Seq<LearningView>, id: Seq<char>) -> bool {
    exists|i: int| 0 <= i < learnings.len() && (#[trigger] learnings[i]).id == id
}

/// What the store holds after the import of a document: with `clear`
/// the document alone; else what was stored and is not in the document,
/// followed by the document. The tasks of the document come in depth
/// order.
pub open spec fn merged(
    pre: StoreView,
    tasks: Seq<TaskView>,
    learnings: Seq<LearningView>,
    blockers: Seq<BlockerView>,
    clear: bool,
) -> StoreView {
    StoreView {
        tasks: (if clear {
            Seq::empty()
        } else {
            pre.tasks.filter(|t: TaskView| !names_task(tasks, t.id))
        }) + depth_ordered(tasks),
        blockers: (if clear {
            Seq::empty()
        } else {
            pre.blockers.filter(|e: BlockerView| !blockers.contains(e))
        }) + blockers,
        learnings: (if clear {
            Seq::empty()
        } else {
            pre.learnings.filter(|l: LearningView| !names_learning(learnings, l.id))
        }) + learnings,
    }
}

/// The parent that the first of `tasks` with the identifier `id` names.
fn parent_in_document(tasks: &Vec<ExportTask>, id: &TaskId) -> (r: Option<TaskId>)
    ensures
        opt_id_view(r) == doc_parent(export_view(tasks@), id@),
{
    let ghost all = export_view(tasks@);
    let mut i: usize = 0;
    proof {
        assert(all.skip(0) =~= all);
    }
    while i < tasks.len()
        invariant
            i <= tasks@.len(),
            all == export_view(tasks@),
            doc_parent(all, id@) == doc_parent(all.skip(i as int), id@),
        decreases tasks@.len() - i,
    {
        proof {
            assert(all.skip(i as int)[0] == tasks@[i as int]@);
            assert(all.skip(i as int).skip(1) =~= all.skip(i + 1));
        }
        if tasks[i].id == *id {
            return copy_opt_id(&tasks[i].parent_id);
        }
        i += 1;
    }
    None
}

/// The depth of a task within the document, counted up to three.
pub fn calculate_depth(tasks: &Vec<ExportTask>, task_id: &TaskId) -> (r: i32)
    ensures
        r == doc_depth(export_view(tasks@), task_id@),
        0 <= r <= 3,
{
    match parent_in_document(tasks, task_id) {
        None => 0,
        Some(p) => match parent_in_document(tasks, &p) {
            None => 1,
            Some(g) => match parent_in_document(tasks, &g) {
                None => 2,
                Some(_) => 3,
            },
        },
    }
}

/// The task of a document as the store holds it.
fn restore_task(t: &ExportTask) -> (r: Task)
    ensures
        r@ == t@,
        r.is_bare(),
{
    Task {
        id: t.id.clone(),
        parent_id: copy_opt_id(&t.parent_id),
        description: t.description.clone(),
        context: t.context.clone(),
        context_chain: None,
        learnings: None,
        result: copy_opt_string(&t.result),
        priority: t.priority,
        completed: t.completed,
        completed_at: t.completed_at,
        created_at: t.created_at,
        updated_at: t.updated_at,
        started_at: t.started_at,
        commit_sha: copy_opt_string(&t.commit_sha),
        bookmark: None,
        start_commit: None,
        depth: None,
        blocked_by: Vec::new(),
        blocks: Vec::new(),
        effectively_blocked: false,
        cancelled: t.cancelled,
        cancelled_at: t.cancelled_at,
        archived: t.archived,
        archived_at: t.archived_at,
    }
}

/// Adds the tasks of the document that lie at the depth `depth` to `out`.
fn restore_depth(tasks: &Vec<ExportTask>, depth: i32, out: &mut Vec<Task>)
    ensures
        tasks_view(final(out)@) == tasks_view(old(out)@) + export_view(tasks@).filter(
            |t: TaskView| doc_depth(export_view(tasks@), t.id) == depth,
        ),
{
    let ghost all = export_view(tasks@);
    let ghost p = |t: TaskView| doc_depth(all, t.id) == depth;
    let ghost before = tasks_view(out@);
    let mut i: usize = 0;
    proof {
        assert(all.take(0).filter(p) =~= Seq::empty());
        assert(before + Seq::<TaskView>::empty() =~= before);
    }
    while i < tasks.len()
        invariant
            i <= tasks@.len(),
            all == export_view(tasks@),
            p == |t: TaskView| doc_depth(all, t.id) == depth,
            tasks_view(out@) == before + all.take(i as int).filter(p),
        decreases tasks@.len() - i,
    {
        proof {
            crate::store::lemma_filter_step(all, p, i as int);
            assert(all[i as int] == tasks@[i as int]@);
        }
        if calculate_depth(tasks, &tasks[i].id) == depth {
            let ghost held = out@;
            out.push(restore_task(&tasks[i]));
            assert(tasks_view(out@) =~= tasks_view(held).push(all[i as int]));
            assert(before + all.take(i as int).filter(p).push(all[i as int]) =~= (before
                + all.take(i as int).filter(p)).push(all[i as int]));
        }
        i += 1;
    }
    proof {
        assert(all.take(i as int) =~= all);
    }
}

/// Whether some task of the document has the identifier `id`.
fn document_names_task(tasks: &Vec<ExportTask>, id: &TaskId) -> (r: bool)
    ensures
        r == names_task(export_view(tasks@), id@),
{
    let mut i: usize = 0;
    while i < tasks.len()
        invariant
            i <= tasks@.len(),
            forall|k: int| 0 <= k < i ==> (#[trigger] export_view(tasks@)[k]).id != id@,
        decreases tasks@.len() - i,
    {
        if tasks[i].id == *id {
            assert(export_view(tasks@)[i as int].id == id@);
            return true;
        }
        i += 1;
    }
    false
}

/// Whether some learning of the document has the identifier of `l`.
fn document_names_learning(learnings: &Vec<Learning>, l: &Learning) -> (r: bool)
    ensures
        r == names_learning(learnings_view(learnings@), l@.id),
{
    let mut i: usize = 0;
    while i < learnings.len()
        invariant
            i <= learnings@.len(),
            forall|k: int| 0 <= k < i ==> (#[trigger] learnings_view(learnings@)[k]).id != l@.id,
        decreases learnings@.len() - i,
    {
        if learnings[i].id == l.id {
            assert(learnings_view(learnings@)[i as int].id == l@.id);
            return true;
        }
        i += 1;
    }
    false
}

/// Whether the document holds the edge `e`.
fn document_holds_edge(blockers: &Vec<BlockerRelation>, e: &BlockerRelation) -> (r: bool)
    ensures
        r == edges_view(blockers@).contains(e@),
{
    let mut i: usize = 0;
    while i < blockers.len()
        invariant
            i <= blockers@.len(),
            forall|k: int| 0 <= k < i ==> edges_view(blockers@)[k] != e@,
        decreases blockers@.len() - i,
    {
        if blockers[i].task_id == e.task_id && blockers[i].blocker_id == e.blocker_id {
            assert(edges_view(blockers@)[i as int] == e@);
            return true;
        }
        i += 1;
    }
    false
}

/// What `import_snapshot` answers and leaves behind.
pub open spec fn import_post(
    pre: StoreView,
    data: ExportData,
    clear: bool,
    post: StoreView,
    r: Result<DataResult, OsError>,
) -> bool {
    let wanted = merged(
        pre,
        export_view(data.tasks@),
        learnings_view(data.learnings@),
        edges_view(data.blockers@),
        clear,
    );
    if wanted.wf() {
        &&& post == wanted
        &&& r matches Ok(DataResult::Imported { tasks, learnings })
        &&& tasks == data.tasks@.len()
        &&& learnings == data.learnings@.len()
    } else {
        post == pre && r matches Err(OsError::Database(_))
    }
}

/// Restores the document into the store: with `clear` the store holds
/// the document alone afterwards, else the document replaces what it
/// names and is added to the rest. The tasks of the document are
/// restored in depth order, so that every parent comes before its
/// children. Where the result would not be well formed, nothing
/// changes.
pub fn import_snapshot(store: &mut Store, data: &ExportData, clear: bool) -> (r: Result<
    DataResult,
    OsError,
>)
    requires
        old(store)@.wf(),
    ensures
        final(store)@.wf(),
        import_post(old(store)@, *data, clear, final(store)@, r),
{
    let ghost pre = store@;
    let ghost doc_tasks = export_view(data.tasks@);
    let ghost doc_learnings = learnings_view(data.learnings@);
    let ghost doc_edges = edges_view(data.blockers@);
    let mut tasks: Vec<Task> = Vec::new();
    let mut blockers: Vec<BlockerRelation> = Vec::new();
    let mut learnings: Vec<Learning> = Vec::new();
    proof {
        assert(tasks_view(tasks@) =~= Seq::empty());
        assert(edges_view(blockers@) =~= Seq::empty());
        assert(learnings_view(learnings@) =~= Seq::empty());
    }
    if !clear {
        let held = store.all_tasks();
        let ghost pt = |t: TaskView| !names_task(doc_tasks, t.id);
        let mut i: usize = 0;
        proof {
            assert(pre.tasks.take(0).filter(pt) =~= Seq::empty());
        }
        while i < held.len()
            invariant
                i <= held@.len(),
                tasks_view(held@) == pre.tasks,
                doc_tasks == export_view(data.tasks@),
                pt == |t: TaskView| !names_task(doc_tasks, t.id),
                tasks_view(tasks@) == pre.tasks.take(i as int).filter(pt),
            decreases held@.len() - i,
        {
            proof {
                crate::store::lemma_filter_step(pre.tasks, pt, i as int);
                assert(pre.tasks[i as int] == held@[i as int]@);
            }
            if !document_names_task(&data.tasks, &held[i].id) {
                let ghost before = tasks@;
                tasks.push(held[i].stored_copy());
                assert(tasks_view(tasks@) =~= tasks_view(before).push(pre.tasks[i as int]));
            }
            i += 1;
        }
        let edges = store.all_blockers();
        let ghost pe = |e: BlockerView| !doc_edges.contains(e);
        let mut j: usize = 0;
        proof {
            assert(pre.tasks.take(i as int) =~= pre.tasks);
            assert(pre.blockers.take(0).filter(pe) =~= Seq::empty());
        }
        while j < edges.len()
            invariant
                j <= edges@.len(),
                edges_view(edges@) == pre.blockers,
                doc_edges == edges_view(data.blockers@),
                pe == |e: BlockerView| !doc_edges.contains(e),
                edges_view(blockers@) == pre.blockers.take(j as int).filter(pe),
            decreases edges@.len() - j,
        {
            proof {
                crate::store::lemma_filter_step(pre.blockers, pe, j as int);
                assert(pre.blockers[j as int] == edges@[j as int]@);
            }
            if !document_holds_edge(&data.blockers, &edges[j]) {
                let ghost before = blockers@;
                blockers.push(
                    BlockerRelation {
                        task_id: edges[j].task_id.clone(),
                        blocker_id: edges[j].blocker_id.clone(),
                    },
                );
                assert(edges_view(blockers@) =~= edges_view(before).push(pre.blockers[j as int]));
            }
            j += 1;
        }
        let notes = store.all_learnings();
        let ghost pl = |l: LearningView| !names_learning(doc_learnings, l.id);
        let mut k: usize = 0;
        proof {
            assert(pre.blockers.take(j as int) =~= pre.blockers);
            assert(pre.learnings.take(0).filter(pl) =~= Seq::empty());
        }
        while k < notes.len()
            invariant
                k <= notes@.len(),
                learnings_view(notes@) == pre.learnings,
                doc_learnings == learnings_view(data.learnings@),
                pl == |l: LearningView| !names_learning(doc_learnings, l.id),
                learnings_view(learnings@) == pre.learnings.take(k as int).filter(pl),
            decreases notes@.len() - k,
        {
            proof {
                crate::store::lemma_filter_step(pre.learnings, pl, k as int);
                assert(pre.learnings[k as int] == notes@[k as int]@);
            }
            if !document_names_learning(&data.learnings, &notes[k]) {
                let ghost before = learnings@;
                learnings.push(notes[k].copy());
                assert(learnings_view(learnings@) =~= learnings_view(before).push(
                    pre.learnings[k as int],
                ));
            }
            k += 1;
        }
        proof {
            assert(pre.learnings.take(k as int) =~= pre.learnings);
        }
    }
    let ghost kept_tasks = tasks_view(tasks@);
    let ghost kept_edges = edges_view(blockers@);
    let ghost kept_learnings = learnings_view(learnings@);
    // one pass for each depth, parents before children, in place of a map
    // from depth to tasks: filling such a map needs `entry`, of which
    // nothing is specified
    restore_depth(&data.tasks, 0, &mut tasks);
    restore_depth(&data.tasks, 1, &mut tasks);
    restore_depth(&data.tasks, 2, &mut tasks);
    restore_depth(&data.tasks, 3, &mut tasks);
    proof {
        let d0 = doc_tasks.filter(|t: TaskView| doc_depth(doc_tasks, t.id) == 0);
        let d1 = doc_tasks.filter(|t: TaskView| doc_depth(doc_tasks, t.id) == 1);
        let d2 = doc_tasks.filter(|t: TaskView| doc_depth(doc_tasks, t.id) == 2);
        let d3 = doc_tasks.filter(|t: TaskView| doc_depth(doc_tasks, t.id) == 3);
        assert((((kept_tasks + d0) + d1) + d2) + d3 =~= kept_tasks + (d0 + d1 + d2 + d3));
    }
    let mut n: usize = 0;
    proof {
        assert(doc_edges.take(0) =~= Seq::empty());
        assert(kept_edges + Seq::<BlockerView>::empty() =~= kept_edges);
    }
    while n < data.blockers.len()
        invariant
            n <= data.blockers@.len(),
            doc_edges == edges_view(data.blockers@),
            edges_view(blockers@) == kept_edges + doc_edges.take(n as int),
        decreases data.blockers@.len() - n,
    {
        let ghost before = blockers@;
        let e = &data.blockers[n];
        blockers.push(
            BlockerRelation { task_id: e.task_id.clone(), blocker_id: e.blocker_id.clone() },
        );
        proof {
            assert(edges_view(blockers@) =~= edges_view(before).push(doc_edges[n as int]));
            assert(doc_edges.take(n + 1) =~= doc_edges.take(n as int).push(doc_edges[n as int]));
        }
        n += 1;
    }
    let mut m: usize = 0;
    proof {
        assert(doc_edges.take(n as int) =~= doc_edges);
        assert(doc_learnings.take(0) =~= Seq::empty());
        assert(kept_learnings + Seq::<LearningView>::empty() =~= kept_learnings);
    }
    while m < data.learnings.len()
        invariant
            m <= data.learnings@.len(),
            doc_learnings == learnings_view(data.learnings@),
            learnings_view(learnings@) == kept_learnings + doc_learnings.take(m as int),
        decreases data.learnings@.len() - m,
    {
        let ghost before = learnings@;
        learnings.push(data.learnings[m].copy());
        proof {
            assert(learnings_view(learnings@) =~= learnings_view(before).push(
                doc_learnings[m as int],
            ));
            assert(doc_learnings.take(m + 1) =~= doc_learnings.take(m as int).push(
                doc_learnings[m as int],
            ));
        }
        m += 1;
    }
    proof {
        assert(doc_learnings.take(m as int) =~= doc_learnings);
        assert(Store::parts_view(tasks@, blockers@, learnings@) == merged(
            pre,
            doc_tasks,
            doc_learnings,
            doc_edges,
            clear,
        ));
    }
    match Store::from_parts(tasks, blockers, learnings) {
        Err(e) => Err(e),
        Ok(restored) => {
            *store = restored;
            Ok(DataResult::Imported { tasks: data.tasks.len(), learnings: data.learnings.len() })
        },
    }
}

} // verus!
