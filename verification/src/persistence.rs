//! The startup and recovery protocol over the two store files.
//!
//! The store lives at two paths, a primary and a backup.  At startup the
//! surrounding program reports the observable state of the two files and this
//! module decides, exactly as the recovery protocol demands, which of three
//! actions to take.  The program then performs the file work: a restore
//! copies the backup over the primary whole (never a merge), after which the
//! run ends so the operator can start again on the restored store.

use vstd::prelude::*;

verus! {

/// What a run must do with the store files before any session begins.
#[derive(Clone, Copy, Debug, PartialEq, Eq, Structural)]
pub enum StartupAction {
    /// The primary is missing or zero-length and a backup exists: overwrite
    /// the primary with the backup's full content, then stop this run.
    RestoreBackup,
    /// The primary is missing or zero-length and no backup exists: write a
    /// freshly serialized empty store to the primary, then stop this run.
    InitializeFresh,
    /// The primary holds content: deserialize it and, before any mutation,
    /// snapshot it to the backup.
    LoadPrimary,
}

/// The startup decision as a function of the observed file state.  A primary
/// that does not exist is created empty first, so it counts as zero-length.
pub open spec fn plan_startup_spec(
    primary_exists: bool,
    primary_empty: bool,
    backup_exists: bool,
) -> StartupAction {
    if !primary_exists || primary_empty {
        if backup_exists {
            StartupAction::RestoreBackup
        } else {
            StartupAction::InitializeFresh
        }
    } else {
        StartupAction::LoadPrimary
    }
}

/// Decides the startup action from the observed state of the two files.
pub fn plan_startup(primary_exists: bool, primary_empty: bool, backup_exists: bool) -> (a:
    StartupAction)
    ensures
        a == plan_startup_spec(primary_exists, primary_empty, backup_exists),
{
    if !primary_exists || primary_empty {
        if backup_exists {
            StartupAction::RestoreBackup
        } else {
            StartupAction::InitializeFresh
        }
    } else {
        StartupAction::LoadPrimary
    }
}

/// The primary file's content once the startup action has been carried out:
/// a restore copies the backup whole, initialization writes the serialized
/// empty store, and a plain load leaves the primary as it was.
pub open spec fn primary_after_startup(
    a: StartupAction,
    primary: Seq<u8>,
    backup: Seq<u8>,
    fresh: Seq<u8>,
) -> Seq<u8> {
    match a {
        StartupAction::RestoreBackup => backup,
        StartupAction::InitializeFresh => fresh,
        StartupAction::LoadPrimary => primary,
    }
}

/// Recovery: given a zero-length primary file and an existing backup file,
/// startup ends with the primary's content equal to the backup's content.
pub proof fn lemma_recovery_restores_backup(
    primary_exists: bool,
    primary: Seq<u8>,
    backup: Seq<u8>,
    fresh: Seq<u8>,
)
    requires
        primary.len() == 0,
    ensures
        primary_after_startup(
            plan_startup_spec(primary_exists, primary.len() == 0, true),
            primary,
            backup,
            fresh,
        ) == backup,
{
}

} // verus!
