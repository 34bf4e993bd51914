//! The errors of the task and workflow operations.

use vstd::prelude::*;
use vstd::std_specs::convert::FromSpecImpl;

use crate::id::{LearningId, TaskId};
use crate::vcs::VcsError;

verus! {

/// Why a task cannot be started.
#[derive(Debug, Clone)]
pub enum NotReadyReason {
    /// The task has unfinished children: the next ready child is to be started.
    HasIncompleteChildren,
    /// The task or an ancestor waits for blockers; `blockers` holds the
    /// unsatisfied blockers of the task itself.
    Blocked { blockers: Vec<TaskId> },
    /// Nothing under the task is ready: all is done or blocked.
    NoReadyTasksInSubtree,
}

/// The relation to a task that forbids a blocker.
#[derive(Debug, Clone, Copy, PartialEq, Eq, Structural)]
pub enum BlockerRelationKind {
    /// The blocker is the task itself.
    Itself,
    /// The blocker is an ancestor of the task.
    Ancestor,
    /// The blocker is a descendant of the task.
    Descendant,
}

#[derive(Debug, Clone)]
pub enum OsError {
    /// The store refused a write that would break its integrity, such as
    /// an identifier that is already taken.
    Database(String),
    TaskNotFound(TaskId),
    ParentNotFound(TaskId),
    BlockerNotFound(TaskId),
    LearningNotFound(LearningId),
    /// A subtask cannot have children.
    MaxDepthExceeded,
    ParentCycle,
    BlockerCycle,
    /// A blocker came up twice while blockers were followed to find a task
    /// to start; `chain` holds the blockers followed, the repeated one last.
    BlockerCycleDetected { message: String, chain: Vec<TaskId> },
    /// Every path from the requested task ends at something that cannot be
    /// started.
    NoStartableTask { message: String, requested: TaskId },
    /// The task is not the next ready task of its subtree.
    NotNextReady {
        message: String,
        requested: TaskId,
        next_ready: Option<TaskId>,
        reason: NotReadyReason,
    },
    /// The blocker is the task itself, an ancestor or a descendant of it.
    InvalidBlockerRelation {
        kind: BlockerRelationKind,
        message: String,
        task_id: TaskId,
        blocker_id: TaskId,
    },
    PendingChildren,
    /// The priority is not 0, 1 or 2.
    InvalidPriority(i32),
    CannotReopenActive { state: String },
    CannotReopenCancelled,
    CannotCancelCompleted,
    AlreadyCancelled,
    CannotArchiveActive,
    AlreadyArchived,
    CannotModifyArchived,
    CannotAttachChildToInactiveParent { parent_id: TaskId, state: String },
    CannotStartCompleted,
    CannotStartCancelled,
    CannotCompleteCompleted,
    CannotCompleteArchived,
    CannotCompleteCancelled,
    NotARepository,
    DirtyWorkingCopy,
    Vcs(VcsError),
}

/// The error of a task operation that a failure of the backend becomes.
pub open spec fn from_vcs(err: VcsError) -> OsError {
    match err {
        VcsError::NotARepository => OsError::NotARepository,
        VcsError::DirtyWorkingCopy => OsError::DirtyWorkingCopy,
        other => OsError::Vcs(other),
    }
}

impl From<VcsError> for OsError {
    fn from(err: VcsError) -> (r: OsError) {
        match err {
            VcsError::NotARepository => OsError::NotARepository,
            VcsError::DirtyWorkingCopy => OsError::DirtyWorkingCopy,
            other => OsError::Vcs(other),
        }
    }
}

impl FromSpecImpl<VcsError> for OsError {
    open spec fn obeys_from_spec() -> bool {
        true
    }

    open spec fn from_spec(err: VcsError) -> OsError {
        from_vcs(err)
    }
}

} // verus!
