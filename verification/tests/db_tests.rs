use stump::backend::{
    default_sqlite_url, get_active_backend, resolve_database_url, set_active_backend, ActiveBackend,
    DatabaseBackend, StumpConfig,
};
use stump::journal::{
    check_journal_mode_support, journal_mode_query, read_journal_mode, written_journal_mode, CoreError,
    JournalMode, JournalModeQueryResult,
};
use stump::migration::{force_reset_requested, migration_step, MigrationStep};
use stump::sql::{coalesce_fn, sql_string_list, sql_string_literal};

#[test]
fn url_scheme_selects_the_backend() {
    assert_eq!(DatabaseBackend::from_url("postgresql://u@h/db"), DatabaseBackend::Postgres);
    assert_eq!(DatabaseBackend::from_url("  PostgreS://h/db \n"), DatabaseBackend::Postgres);
    assert_eq!(DatabaseBackend::from_url("\u{3000}\tpostgres://h"), DatabaseBackend::Postgres);
    assert_eq!(DatabaseBackend::from_url("file:/data/stump.db"), DatabaseBackend::Sqlite);
    assert_eq!(DatabaseBackend::from_url("postgres:/h"), DatabaseBackend::Sqlite);
    assert_eq!(DatabaseBackend::from_url("x postgres://h"), DatabaseBackend::Sqlite);
    assert_eq!(DatabaseBackend::from_url(""), DatabaseBackend::Sqlite);
}

#[test]
fn backend_predicates() {
    assert!(DatabaseBackend::Sqlite.supports_pragmas());
    assert!(!DatabaseBackend::Postgres.supports_pragmas());
    assert!(DatabaseBackend::Sqlite.sqlite() && !DatabaseBackend::Sqlite.postgres());
    assert!(DatabaseBackend::Postgres.postgres() && !DatabaseBackend::Postgres.sqlite());
    assert_eq!(DatabaseBackend::default(), DatabaseBackend::Sqlite);
}

#[test]
fn active_backend_gives_back_what_was_set() {
    let mut active = ActiveBackend::new();
    assert_eq!(get_active_backend(&active), DatabaseBackend::Sqlite);
    set_active_backend(&mut active, DatabaseBackend::Postgres);
    assert_eq!(get_active_backend(&active), DatabaseBackend::Postgres);
    set_active_backend(&mut active, DatabaseBackend::Sqlite);
    assert_eq!(get_active_backend(&active), DatabaseBackend::Sqlite);
}

fn config(profile: &str, db_path: Option<&str>, database_url: Option<&str>) -> StumpConfig {
    StumpConfig {
        profile: profile.to_string(),
        config_dir: "/home/u/.stump".to_string(),
        db_path: db_path.map(|s| s.to_string()),
        database_url: database_url.map(|s| s.to_string()),
    }
}

#[test]
fn default_sqlite_url_cases() {
    assert_eq!(default_sqlite_url(&config("release", Some("/data"), None), "/src/core"), "file:/data/stump.db");
    assert_eq!(default_sqlite_url(&config("release", None, None), "/src/core"), "file:/home/u/.stump/stump.db");
    assert_eq!(default_sqlite_url(&config("debug", None, None), "/src/core"), "file:/src/core/prisma/dev.db");
}

#[test]
fn resolve_prefers_the_configured_url() {
    assert_eq!(
        resolve_database_url(&config("release", Some("/data"), Some("postgres://h/db")), "/src"),
        "postgres://h/db"
    );
    assert_eq!(resolve_database_url(&config("release", None, None), "/src"), "file:/home/u/.stump/stump.db");
}

#[test]
fn sql_literals_double_their_quotes() {
    assert_eq!(sql_string_literal("O'Brien"), "'O''Brien'");
    assert_eq!(sql_string_literal(""), "''");
    assert_eq!(sql_string_literal("''"), "''''''");
    assert_eq!(sql_string_literal("naïve"), "'naïve'");
}

#[test]
fn sql_lists_join_literals_with_commas() {
    let values = vec!["a".to_string(), "b'c".to_string(), "d".to_string()];
    assert_eq!(sql_string_list(&values), "'a','b''c','d'");
    assert_eq!(sql_string_list(&[]), "");
    assert_eq!(sql_string_list(&["x".to_string()]), "'x'");
}

#[test]
fn coalesce_follows_the_backend() {
    let mut active = ActiveBackend::new();
    assert_eq!(coalesce_fn(&active), "IFNULL");
    set_active_backend(&mut active, DatabaseBackend::Postgres);
    assert_eq!(coalesce_fn(&active), "COALESCE");
}

#[test]
fn journal_modes_parse_without_case() {
    assert_eq!(JournalMode::from_str("wal"), Ok(JournalMode::WAL));
    assert_eq!(JournalMode::from_str("WAL"), Ok(JournalMode::WAL));
    assert_eq!(JournalMode::from_str("Delete"), Ok(JournalMode::DELETE));
    assert_eq!(
        JournalMode::from_str("truncate"),
        Err("Invalid or unsupported journal mode: truncate".to_string())
    );
    assert_eq!("delete".parse::<JournalMode>(), Ok(JournalMode::DELETE));
    assert_eq!(JournalMode::WAL.as_ref(), "WAL");
    assert_eq!(JournalMode::DELETE.as_str(), "DELETE");
    assert_eq!(JournalMode::default(), JournalMode::WAL);
}

#[test]
fn journal_statements_and_rows() {
    assert_eq!(journal_mode_query(None), "PRAGMA journal_mode;");
    assert_eq!(journal_mode_query(Some(JournalMode::DELETE)), "PRAGMA journal_mode=DELETE;");
    let rows = vec![
        JournalModeQueryResult { journal_mode: JournalMode::DELETE },
        JournalModeQueryResult { journal_mode: JournalMode::WAL },
    ];
    assert_eq!(read_journal_mode(&rows), JournalMode::DELETE);
    assert_eq!(read_journal_mode(&vec![]), JournalMode::WAL);
    assert_eq!(written_journal_mode(&rows).unwrap(), JournalMode::DELETE);
    match written_journal_mode(&vec![]) {
        Err(CoreError::InternalError(msg)) => assert_eq!(msg, "Journal mode failed to be set"),
        other => panic!("unexpected {other:?}"),
    }
}

#[test]
fn journal_mode_needs_sqlite() {
    let mut active = ActiveBackend::new();
    assert!(check_journal_mode_support(&active).is_ok());
    set_active_backend(&mut active, DatabaseBackend::Postgres);
    match check_journal_mode_support(&active) {
        Err(CoreError::BadRequest(msg)) => {
            assert_eq!(msg, "Journal mode is only supported for SQLite databases")
        },
        other => panic!("unexpected {other:?}"),
    }
}

#[test]
fn migration_choices() {
    assert!(force_reset_requested(Some("true")));
    assert!(!force_reset_requested(Some("TRUE")));
    assert!(!force_reset_requested(None));
    let mut active = ActiveBackend::new();
    assert_eq!(migration_step(&active, true, false), MigrationStep::MigrateDeploy);
    assert_eq!(migration_step(&active, true, true), MigrationStep::DbPush { force_reset: true });
    set_active_backend(&mut active, DatabaseBackend::Postgres);
    assert_eq!(migration_step(&active, false, false), MigrationStep::DbPush { force_reset: false });
}
