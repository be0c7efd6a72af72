//! Which schema migration the server runs at start-up.

use vstd::prelude::*;
use crate::backend::{get_active_backend, ActiveBackend, DatabaseBackend};
use crate::text::same_text;

verus! {

/// The migration step to run.
#[derive(Debug, Clone, Copy, PartialEq, Eq, Structural)]
pub enum MigrationStep {
    /// Push the schema to the database, resetting it first when asked.
    DbPush { force_reset: bool },
    /// Apply the recorded migrations.
    MigrateDeploy,
}

/// Whether the `FORCE_RESET_DB` setting asks for a reset: only the exact
/// text `true` does; an unset or unreadable setting does not.
pub fn force_reset_requested(setting: Option<&str>) -> (r: bool)
    ensures
        r == (setting is Some && setting->0@ == "true"@),
{
    match setting {
        Some(v) => same_text(v, "true"),
        None => false,
    }
}

/// The step to run. PostgreSQL databases always get a schema push; SQLite
/// databases get one in debug builds and the recorded migrations otherwise.
/// `force_reset` applies to pushes only.
pub fn migration_step(active: &ActiveBackend, force_reset: bool, debug_build: bool) -> (r: MigrationStep)
    ensures
        r == (if active@ == DatabaseBackend::Postgres || debug_build {
            MigrationStep::DbPush { force_reset }
        } else {
            MigrationStep::MigrateDeploy
        }),
{
    if get_active_backend(active) == DatabaseBackend::Postgres {
        return MigrationStep::DbPush { force_reset };
    }
    if debug_build {
        MigrationStep::DbPush { force_reset }
    } else {
        MigrationStep::MigrateDeploy
    }
}

} // verus!
