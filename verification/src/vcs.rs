//! The version-control capability that the workflow is coupled to, and the
//! values that pass through it.

use vstd::prelude::*;

use crate::types::Timestamp;

verus! {

/// What a version-control operation can fail with.
#[derive(Debug, Clone)]
pub enum VcsError {
    NotARepository,
    NoWorkingCopy,
    OperationFailed(String),
    NothingToCommit,
    BookmarkNotFound(String),
    BookmarkExists(String),
    TargetNotFound(String),
    DirtyWorkingCopy,
    RebaseConflict,
    Jj(String),
    Git(String),
    /// An input or output failure, with its description.
    Io(String),
}

/// The kind of repository.
#[derive(Debug, Clone, Copy, PartialEq, Eq, Structural)]
pub enum VcsType {
    Jj,
    Git,
    /// No repository.
    NoVcs,
}

/// The kind of repository found and its root directory.
#[derive(Debug, Clone)]
pub struct VcsInfo {
    pub vcs_type: VcsType,
    pub root: String,
}

/// What one directory holds of the marks of a repository.
#[derive(Debug, Clone)]
pub struct DirMarks {
    pub path: String,
    pub has_jj: bool,
    pub has_git: bool,
}

/// The repository that the directories `levels` lie in: that of the first
/// of them that holds a mark, a jj repository where it holds both marks;
/// none where no directory holds a mark.
pub open spec fn detected(levels: Seq<DirMarks>) -> (VcsType, Option<Seq<char>>)
    decreases levels.len(),
{
    if levels.len() == 0 {
        (VcsType::NoVcs, None)
    } else if levels[0].has_jj {
        (VcsType::Jj, Some(levels[0].path@))
    } else if levels[0].has_git {
        (VcsType::Git, Some(levels[0].path@))
    } else {
        detected(levels.skip(1))
    }
}

/// Finds the repository that a directory lies in. `levels` holds the
/// directory and the directories above it, nearest first, each with the
/// marks found in it. The nearest directory with a mark is the root of the
/// repository; where it holds the marks of both kinds, jj comes first.
pub fn detect_vcs_type(levels: &Vec<DirMarks>) -> (r: (VcsType, Option<String>))
    ensures
        r.0 == detected(levels@).0,
        r.1 is Some == detected(levels@).1 is Some,
        r.1 matches Some(root) ==> detected(levels@).1 == Some(root@),
{
    let mut i: usize = 0;
    assert(levels@.skip(0) =~= levels@);
    while i < levels.len()
        invariant
            i <= levels@.len(),
            detected(levels@) == detected(levels@.skip(i as int)),
        decreases levels@.len() - i,
    {
        let ghost rest = levels@.skip(i as int);
        assert(rest[0] == levels@[i as int]);
        assert(rest.skip(1) =~= levels@.skip(i + 1));
        if levels[i].has_jj {
            return (VcsType::Jj, Some(levels[i].path.clone()));
        }
        if levels[i].has_git {
            return (VcsType::Git, Some(levels[i].path.clone()));
        }
        i += 1;
    }
    (VcsType::NoVcs, None)
}

/// The kind and the root of the repository that a directory lies in, the
/// root empty where there is none.
pub fn detect(levels: &Vec<DirMarks>) -> (info: VcsInfo)
    ensures
        info.vcs_type == detected(levels@).0,
        info.root@ == match detected(levels@).1 {
            Some(root) => root,
            None => Seq::<char>::empty(),
        },
{
    let found = detect_vcs_type(levels);
    let root = match found.1 {
        Some(root) => root,
        None => String::new(),
    };
    VcsInfo { vcs_type: found.0, root }
}

/// How a file of the working copy differs from the last commit.
#[derive(Debug, Clone, Copy, PartialEq, Eq, Structural)]
pub enum FileStatusKind {
    Modified,
    Added,
    Deleted,
    Renamed,
    Untracked,
    Conflict,
}

/// One changed file of the working copy.
#[derive(Debug, Clone)]
pub struct FileStatus {
    pub path: String,
    pub status: FileStatusKind,
}

/// The state of the working copy.
#[derive(Debug, Clone)]
pub struct VcsStatus {
    pub files: Vec<FileStatus>,
    pub working_copy_id: Option<String>,
}

/// One commit of the history.
#[derive(Debug, Clone)]
pub struct LogEntry {
    pub id: String,
    pub description: String,
    pub author: String,
    pub timestamp: Timestamp,
}

/// How a file changed between two commits.
#[derive(Debug, Clone, Copy, PartialEq, Eq, Structural)]
pub enum ChangeType {
    Added,
    Modified,
    Deleted,
    Renamed,
}

/// One changed file of a diff.
#[derive(Debug, Clone)]
pub struct DiffEntry {
    pub path: String,
    pub change_type: ChangeType,
}

/// The commit that was made.
#[derive(Debug, Clone)]
pub struct CommitResult {
    pub id: String,
    pub message: String,
}

/// A version-control backend. The workflow is written against this trait
/// alone; nothing is assumed of what an implementation returns.
pub trait VcsBackend {
    fn vcs_type(&self) -> VcsType;

    fn root(&self) -> String;

    fn status(&self) -> Result<VcsStatus, VcsError>;

    /// The history, most recent first, at most `limit` entries.
    fn log(&self, limit: usize) -> Result<Vec<LogEntry>, VcsError>;

    fn diff(&self, base: Option<&str>) -> Result<Vec<DiffEntry>, VcsError>;

    /// Commits the working copy. Fails with `NothingToCommit` where nothing
    /// changed.
    fn commit(&self, message: &str) -> Result<CommitResult, VcsError>;

    fn current_commit_id(&self) -> Result<String, VcsError>;

    /// Creates a bookmark. Fails with `BookmarkExists` where the name is taken.
    fn create_bookmark(&self, name: &str, target: Option<&str>) -> Result<(), VcsError>;

    /// Deletes a bookmark. Fails with `BookmarkNotFound` where there is none.
    fn delete_bookmark(&self, name: &str) -> Result<(), VcsError>;

    fn list_bookmarks(&self, prefix: Option<&str>) -> Result<Vec<String>, VcsError>;

    /// Checks out a bookmark or commit. Fails with `DirtyWorkingCopy` or
    /// `TargetNotFound`.
    fn checkout(&self, target: &str) -> Result<(), VcsError>;

    fn squash(&self, message: &str) -> Result<CommitResult, VcsError>;

    fn rebase_onto(&self, target: &str) -> Result<(), VcsError>;

    /// Whether the working copy has no changed file: what `status`
    /// reports, unless an implementation knows better.
    fn is_clean(&self) -> Result<bool, VcsError> {
        status_is_clean(self.status())
    }
}

/// Whether a status reports no changed file: what `is_clean` answers from
/// the result of `status`.
pub fn status_is_clean(status: Result<VcsStatus, VcsError>) -> (r: Result<bool, VcsError>)
    ensures
        match status {
            Ok(s) => r == Ok::<bool, VcsError>(s.files@.len() == 0),
            Err(e) => r == Err::<bool, VcsError>(e),
        },
{
    match status {
        Ok(s) => Ok(s.files.len() == 0),
        Err(e) => Err(e),
    }
}

} // verus!
