//! What opening a persistent database does, decided from its options and
//! what lies at its path: whether to create the directory, to take the
//! process lock, how to treat leftover temporary files, whether a missing
//! manifest is created, whether the log is opened for appending, and
//! whether obsolete blob files are cleaned up.

use vstd::prelude::*;
use crate::error::{Error, ErrorKind, Result};
use crate::options::{DbOptions, FailOnCorruptionPolicy, StorageMode};
use crate::validation::{db_options_problem, validate_options};

verus! {

/// What lies at the database path.
#[derive(Debug, Clone, Copy, PartialEq, Eq, Structural)]
pub enum PathState {
    Missing,
    Directory,
    NotDirectory,
}

/// The steps of opening a persistent database.
#[derive(Debug, Clone, Copy, PartialEq, Eq, Structural)]
pub struct OpenPlan {
    pub create_directory: bool,
    pub take_process_lock: bool,
    pub temporary_file_policy: FailOnCorruptionPolicy,
    pub create_missing_manifest: bool,
    pub open_log_for_append: bool,
    pub clean_obsolete_blob_files: bool,
}

/// Why a persistent database cannot be opened with these options at a path
/// in this state, if it cannot: first a problem of the options, then a
/// storage mode without a path, then the path.
pub open spec fn open_problem(options: DbOptions, path: PathState) -> Option<Seq<char>> {
    if db_options_problem(options) is Some {
        db_options_problem(options)
    } else if options.storage_mode is InMemory {
        Some("persistent open requires a path"@)
    } else {
        match path {
            PathState::Directory => None,
            PathState::NotDirectory => Some("database path is not a directory"@),
            PathState::Missing => if options.create_if_missing && !options.read_only {
                None
            } else {
                Some("database path does not exist"@)
            },
        }
    }
}

/// The plan for options that can be opened: a missing directory is created;
/// a writer takes the process lock, repairs leftover temporary files as its
/// policy says, creates a missing manifest when asked to, appends to the
/// log and cleans up obsolete blob files; a reader takes no lock, fails on
/// leftover temporary files and changes nothing.
pub open spec fn open_plan_spec(options: DbOptions, path: PathState) -> OpenPlan {
    let writer = !options.read_only;
    OpenPlan {
        create_directory: path == PathState::Missing,
        take_process_lock: writer,
        temporary_file_policy: if writer {
            options.fail_on_corruption
        } else {
            FailOnCorruptionPolicy::FailClosed
        },
        create_missing_manifest: options.create_if_missing && writer,
        open_log_for_append: writer,
        clean_obsolete_blob_files: writer,
    }
}

/// Decides how a persistent database opens, or why it cannot.
pub fn plan_persistent_open(options: &DbOptions, path: PathState) -> (r: Result<OpenPlan>)
    ensures
        match open_problem(*options, path) {
            None => r == Ok::<OpenPlan, Error>(open_plan_spec(*options, path)),
            Some(message) => r matches Err(e) && e.kind() == ErrorKind::InvalidOptions && e.message_view() == message,
        },
{
    match validate_options(options) {
        Ok(()) => {},
        Err(e) => return Err(e),
    }
    match &options.storage_mode {
        StorageMode::InMemory => return Err(Error::invalid_options("persistent open requires a path")),
        StorageMode::Persistent { .. } => {},
    }
    let writer = !options.read_only;
    match path {
        PathState::Directory => {},
        PathState::NotDirectory => return Err(Error::invalid_options("database path is not a directory")),
        PathState::Missing => {
            if !(options.create_if_missing && writer) {
                return Err(Error::invalid_options("database path does not exist"));
            }
        },
    }
    Ok(
        OpenPlan {
            create_directory: path == PathState::Missing,
            take_process_lock: writer,
            temporary_file_policy: if writer {
                options.fail_on_corruption
            } else {
                FailOnCorruptionPolicy::FailClosed
            },
            create_missing_manifest: options.create_if_missing && writer,
            open_log_for_append: writer,
            clean_obsolete_blob_files: writer,
        },
    )
}

/// A read-only open never writes: it takes no lock, creates nothing, repairs
/// nothing, appends nothing and removes nothing.
pub proof fn lemma_read_only_open_writes_nothing(options: DbOptions, path: PathState)
    requires
        options.read_only,
        open_problem(options, path) is None,
    ensures
        ({
            let plan = open_plan_spec(options, path);
            &&& !plan.create_directory
            &&& !plan.take_process_lock
            &&& plan.temporary_file_policy == FailOnCorruptionPolicy::FailClosed
            &&& !plan.create_missing_manifest
            &&& !plan.open_log_for_append
            &&& !plan.clean_obsolete_blob_files
        }),
{
}

} // verus!
