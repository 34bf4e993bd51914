//! The version-control commands.

use vstd::prelude::*;

use crate::error::{from_vcs, OsError};
use crate::vcs::{CommitResult, DiffEntry, LogEntry, VcsBackend, VcsError, VcsInfo, VcsStatus};

verus! {

pub enum VcsCommand {
    Detect,
    Status,
    Log(LogArgs),
    Diff(DiffArgs),
    Commit(CommitArgs),
}

pub struct LogArgs {
    /// How many commits to show at most.
    pub limit: usize,
}

pub struct DiffArgs {
    pub base: Option<String>,
}

pub struct CommitArgs {
    pub message: String,
}

pub enum VcsResult {
    Info(VcsInfo),
    Status(VcsStatus),
    Log(Vec<LogEntry>),
    Diff(Vec<DiffEntry>),
    Commit(CommitResult),
}

/// The answer to a command once the backend has answered: what the
/// backend gave, or its failure as the failure of the command.
pub fn answer<T>(given: Result<T, VcsError>) -> (r: Result<T, OsError>)
    ensures
        match given {
            Ok(v) => r == Ok::<T, OsError>(v),
            Err(e) => r == Err::<T, OsError>(from_vcs(e)),
        },
{
    match given {
        Ok(v) => Ok(v),
        Err(e) => Err(OsError::from(e)),
    }
}

/// Carries out a version-control command. `info` says what kind of
/// repository was found and where; `backend` is the backend for it, if
/// there is a repository. Every command but `Detect` needs the backend.
pub fn handle<V: VcsBackend>(cmd: VcsCommand, info: VcsInfo, backend: Option<&V>) -> (r: Result<
    VcsResult,
    OsError,
>)
    ensures
        cmd is Detect ==> r == Ok::<VcsResult, OsError>(VcsResult::Info(info)),
        !(cmd is Detect) && backend is None ==> r == Err::<VcsResult, OsError>(
            OsError::NotARepository,
        ),
        r matches Ok(answer) ==> match cmd {
            VcsCommand::Detect => answer is Info,
            VcsCommand::Status => answer is Status,
            VcsCommand::Log(_) => answer is Log,
            VcsCommand::Diff(_) => answer is Diff,
            VcsCommand::Commit(_) => answer is Commit,
        },
{
    if let VcsCommand::Detect = cmd {
        return Ok(VcsResult::Info(info));
    }
    let backend = match backend {
        Some(b) => b,
        None => {
            return Err(OsError::NotARepository);
        },
    };
    match cmd {
        VcsCommand::Detect => Ok(VcsResult::Info(info)),
        VcsCommand::Status => match answer(backend.status()) {
            Ok(status) => Ok(VcsResult::Status(status)),
            Err(e) => Err(e),
        },
        VcsCommand::Log(args) => match answer(backend.log(args.limit)) {
            Ok(log) => Ok(VcsResult::Log(log)),
            Err(e) => Err(e),
        },
        VcsCommand::Diff(args) => {
            let base = match &args.base {
                Some(b) => Some(b.as_str()),
                None => None,
            };
            match answer(backend.diff(base)) {
                Ok(diff) => Ok(VcsResult::Diff(diff)),
                Err(e) => Err(e),
            }
        },
        VcsCommand::Commit(args) => match answer(backend.commit(args.message.as_str())) {
            Ok(done) => Ok(VcsResult::Commit(done)),
            Err(e) => Err(e),
        },
    }
}

} // verus!
