//! The learning commands.

use vstd::prelude::*;

use crate::error::OsError;
use crate::id::{LearningId, TaskId};
use crate::model::StoreView;
use crate::store::Store;
use crate::types::{learnings_view, opt_id_view, Learning, LearningView, Timestamp};

verus! {

/// Reads a learning identifier from the command line; the error is the
/// message for the user.
pub fn parse_learning_id(s: &str) -> (r: Result<LearningId, String>)
    ensures
        r is Ok <==> LearningId::is_well_formed(s@),
        r matches Ok(id) ==> id@ == s@,
{
    match LearningId::parse(s) {
        Ok(id) => Ok(id),
        Err(e) => Err(e.message()),
    }
}

pub enum LearningCommand {
    Add(AddArgs),
    List { task_id: TaskId },
    Delete { id: LearningId },
}

pub struct AddArgs {
    pub task_id: TaskId,
    pub content: String,
    /// The task that the learning comes from.
    pub source: Option<TaskId>,
}

pub enum LearningResult {
    One(Learning),
    Many(Vec<Learning>),
    Deleted,
}

/// The learning that an `add` command asks for, under the identifier
/// `id` at the time `now`.
pub open spec fn wanted(args: AddArgs, id: Seq<char>, now: Timestamp) -> LearningView {
    LearningView {
        id: id,
        task_id: args.task_id@,
        content: args.content@,
        source_task_id: opt_id_view(args.source),
        created_at: now,
    }
}

/// What a learning command does to the store and answers, where a new
/// learning gets the identifier `id` and the time `now`.
pub open spec fn handled(
    pre: StoreView,
    cmd: LearningCommand,
    id: Seq<char>,
    now: Timestamp,
    post: StoreView,
    r: Result<LearningResult, OsError>,
) -> bool {
    match cmd {
        LearningCommand::Add(args) => if !pre.contains(args.task_id@) {
            r matches Err(OsError::TaskNotFound(missing)) && missing@ == args.task_id@ && post
                == pre
        } else if args.source is Some && !pre.contains(args.source->0@) {
            r matches Err(OsError::TaskNotFound(missing)) && missing@ == args.source->0@ && post
                == pre
        } else {
            exists|inner: Result<Learning, OsError>|
                Store::learning_added(pre, post, wanted(args, id, now), inner) && r == match inner {
                    Ok(l) => Ok::<LearningResult, OsError>(LearningResult::One(l)),
                    Err(e) => Err::<LearningResult, OsError>(e),
                }
        },
        LearningCommand::List { task_id } => post == pre && if pre.contains(task_id@) {
            r matches Ok(LearningResult::Many(found)) && learnings_view(found@)
                == pre.learnings_of(task_id@)
        } else {
            r matches Err(OsError::TaskNotFound(missing)) && missing@ == task_id@
        },
        LearningCommand::Delete { id: learning } => r matches Ok(LearningResult::Deleted) && post
            == pre.without_learning(learning@),
    }
}

/// Carries out a learning command; a new learning gets the identifier
/// `id` and the time `now`. A learning is added only to a stored task,
/// and only with a stored task as its source.
pub fn handle_at(store: &mut Store, cmd: LearningCommand, id: LearningId, now: Timestamp) -> (r:
    Result<LearningResult, OsError>)
    requires
        old(store)@.wf(),
    ensures
        final(store)@.wf(),
        handled(old(store)@, cmd, id@, now, final(store)@, r),
{
    match cmd {
        LearningCommand::Add(args) => {
            if !store.task_exists(&args.task_id) {
                return Err(OsError::TaskNotFound(args.task_id));
            }
            if let Some(source) = &args.source {
                if !store.task_exists(source) {
                    return Err(OsError::TaskNotFound(source.clone()));
                }
            }
            let source = match &args.source {
                Some(s) => Some(s),
                None => None,
            };
            let ghost want = wanted(args, id@, now);
            let inner = store.add_learning(&args.task_id, args.content.as_str(), source, id, now);
            let r = match inner {
                Ok(l) => Ok(LearningResult::One(l)),
                Err(e) => Err(e),
            };
            assert(Store::learning_added(old(store)@, store@, want, inner));
            r
        },
        LearningCommand::List { task_id } => {
            if !store.task_exists(&task_id) {
                return Err(OsError::TaskNotFound(task_id));
            }
            Ok(LearningResult::Many(store.list_learnings(&task_id)))
        },
        LearningCommand::Delete { id: learning } => {
            store.delete_learning(&learning);
            Ok(LearningResult::Deleted)
        },
    }
}

/// Carries out a learning command; a new learning gets a fresh
/// identifier and the current time.
pub fn handle(store: &mut Store, cmd: LearningCommand) -> (r: Result<LearningResult, OsError>)
    requires
        old(store)@.wf(),
    ensures
        final(store)@.wf(),
        exists|id: Seq<char>, now: Timestamp|
            LearningId::is_well_formed(id) && handled(old(store)@, cmd, id, now, final(store)@, r),
{
    let id = LearningId::new();
    let now = Timestamp::now();
    let ghost witness = id@;
    let r = handle_at(store, cmd, id, now);
    assert(LearningId::is_well_formed(witness) && handled(
        old(store)@,
        cmd,
        witness,
        now,
        store@,
        r,
    ));
    r
}

} // verus!
