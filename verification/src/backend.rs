//! Which database backend a connection URL selects, the process-wide choice
//! of backend, and how the database URL is derived from the configuration.

use vstd::prelude::*;
use crate::text::{ascii_lower, ascii_lowercase, chars_of, same_text, to_ascii_lower, trim, trimmed_chars};

verus! {

/// The database engines the server can run on.
#[derive(Debug, Clone, Copy, PartialEq, Eq, Structural)]
pub enum DatabaseBackend {
    Sqlite,
    Postgres,
}

impl Default for DatabaseBackend {
    fn default() -> (r: Self)
        ensures
            r == DatabaseBackend::Sqlite,
    {
        DatabaseBackend::Sqlite
    }
}

/// Whether the trimmed, ASCII-lower-cased URL starts with a PostgreSQL scheme.
pub open spec fn names_postgres(url: Seq<char>) -> bool {
    let normalized = ascii_lowercase(trim(url));
    ||| "postgresql://"@.is_prefix_of(normalized)
    ||| "postgres://"@.is_prefix_of(normalized)
}

/// Whether `p` is a prefix of `s`.
fn has_prefix(s: &Vec<char>, p: &str) -> (r: bool)
    ensures
        r == p@.is_prefix_of(s@),
{
    let pv = chars_of(p);
    if pv.len() > s.len() {
        return false;
    }
    let mut i: usize = 0;
    while i < pv.len()
        invariant
            pv@ == p@,
            pv.len() <= s.len(),
            i <= pv.len(),
            forall|j: int| 0 <= j < i ==> p@[j] == s@[j],
        decreases pv.len() - i,
    {
        if pv[i] != s[i] {
            return false;
        }
        i = i + 1;
    }
    assert(s@.take(p@.len() as int) =~= p@);
    true
}

impl DatabaseBackend {
    /// The backend that a connection URL selects: PostgreSQL for the
    /// `postgresql://` and `postgres://` schemes (after trimming white space,
    /// without regard to ASCII case), SQLite for everything else.
    pub fn from_url(url: &str) -> (r: Self)
        ensures
            r == (if names_postgres(url@) {
                DatabaseBackend::Postgres
            } else {
                DatabaseBackend::Sqlite
            }),
    {
        let t = trimmed_chars(url);
        let mut normalized: Vec<char> = Vec::new();
        let mut i: usize = 0;
        while i < t.len()
            invariant
                i <= t.len(),
                normalized@ == ascii_lowercase(t@).take(i as int),
            decreases t.len() - i,
        {
            normalized.push(to_ascii_lower(t[i]));
            assert(ascii_lowercase(t@).take(i + 1) =~= ascii_lowercase(t@).take(i as int).push(
                ascii_lower(t@[i as int]),
            ));
            i = i + 1;
        }
        assert(ascii_lowercase(t@).take(t.len() as int) =~= ascii_lowercase(t@));
        if has_prefix(&normalized, "postgresql://") || has_prefix(&normalized, "postgres://") {
            DatabaseBackend::Postgres
        } else {
            DatabaseBackend::Sqlite
        }
    }

    /// Whether the backend understands SQLite `PRAGMA` statements.
    pub fn supports_pragmas(self) -> (r: bool)
        ensures
            r == (self == DatabaseBackend::Sqlite),
    {
        matches!(self, DatabaseBackend::Sqlite)
    }

    /// Whether this is the SQLite backend.
    pub fn sqlite(self) -> (r: bool)
        ensures
            r == (self == DatabaseBackend::Sqlite),
    {
        matches!(self, DatabaseBackend::Sqlite)
    }

    /// Whether this is the PostgreSQL backend.
    pub fn postgres(self) -> (r: bool)
        ensures
            r == (self == DatabaseBackend::Postgres),
    {
        matches!(self, DatabaseBackend::Postgres)
    }
}

/// The backend the running process has selected. It starts as the default,
/// SQLite, and holds whatever was last set.
pub struct ActiveBackend {
    backend: DatabaseBackend,
}

impl View for ActiveBackend {
    type V = DatabaseBackend;

    closed spec fn view(&self) -> DatabaseBackend {
        self.backend
    }
}

impl ActiveBackend {
    /// A selection that holds the default backend.
    pub fn new() -> (r: Self)
        ensures
            r@ == DatabaseBackend::Sqlite,
    {
        ActiveBackend { backend: DatabaseBackend::default() }
    }
}

/// Records `backend` as the selected one.
pub fn set_active_backend(active: &mut ActiveBackend, backend: DatabaseBackend)
    ensures
        final(active)@ == backend,
{
    active.backend = backend;
}

/// The selected backend.
pub fn get_active_backend(active: &ActiveBackend) -> (r: DatabaseBackend)
    ensures
        r == active@,
{
    active.backend
}

/// The parts of the server configuration that decide the database URL.
pub struct StumpConfig {
    /// The build profile the server runs under (`"release"` or another).
    pub profile: String,
    /// The configuration directory, as text.
    pub config_dir: String,
    /// A directory chosen for the database file, if any.
    pub db_path: Option<String>,
    /// A database URL given outright, if any.
    pub database_url: Option<String>,
}

/// The SQLite URL that `default_sqlite_url` builds.
pub open spec fn default_sqlite_url_spec(
    profile: Seq<char>,
    config_dir: Seq<char>,
    db_path: Option<Seq<char>>,
    manifest_dir: Seq<char>,
) -> Seq<char> {
    match db_path {
        Some(path) => "file:"@ + path + "/stump.db"@,
        None => if profile == "release"@ {
            "file:"@ + config_dir + "/stump.db"@
        } else {
            "file:"@ + manifest_dir + "/prisma/dev.db"@
        },
    }
}

/// Where a directory is configured for the database, the default SQLite URL
/// is that directory's `stump.db`, whatever the build profile and the other
/// directories; without one, release builds use the configuration directory
/// and other builds the development database.
pub proof fn lemma_configured_db_path_wins(
    profile: Seq<char>,
    other_profile: Seq<char>,
    config_dir: Seq<char>,
    other_config_dir: Seq<char>,
    path: Seq<char>,
    manifest_dir: Seq<char>,
    other_manifest_dir: Seq<char>,
)
    ensures
        default_sqlite_url_spec(profile, config_dir, Some(path), manifest_dir) == "file:"@ + path
            + "/stump.db"@,
        default_sqlite_url_spec(profile, config_dir, Some(path), manifest_dir)
            == default_sqlite_url_spec(other_profile, other_config_dir, Some(path), other_manifest_dir),
        profile == "release"@ ==> default_sqlite_url_spec(profile, config_dir, None, manifest_dir)
            == "file:"@ + config_dir + "/stump.db"@,
        profile != "release"@ ==> default_sqlite_url_spec(profile, config_dir, None, manifest_dir)
            == "file:"@ + manifest_dir + "/prisma/dev.db"@,
{
}

/// The view of an optional string.
pub open spec fn opt_view(o: Option<String>) -> Option<Seq<char>> {
    match o {
        Some(s) => Some(s@),
        None => None,
    }
}

/// `a`, `b` and `c` put together.
fn concat3(a: &str, b: &str, c: &str) -> (r: String)
    ensures
        r@ == a@ + b@ + c@,
{
    let mut r = a.to_owned();
    r.append(b);
    r.append(c);
    r
}

/// The SQLite URL used when no database URL is configured: the database file
/// in the chosen directory, else in the configuration directory for release
/// builds, else the development database under `manifest_dir`.
pub fn default_sqlite_url(config: &StumpConfig, manifest_dir: &str) -> (r: String)
    ensures
        r@ == default_sqlite_url_spec(
            config.profile@,
            config.config_dir@,
            opt_view(config.db_path),
            manifest_dir@,
        ),
{
    match &config.db_path {
        Some(path) => concat3("file:", path.as_str(), "/stump.db"),
        None => {
            if same_text(config.profile.as_str(), "release") {
                concat3("file:", config.config_dir.as_str(), "/stump.db")
            } else {
                concat3("file:", manifest_dir, "/prisma/dev.db")
            }
        },
    }
}

/// The database URL: the configured one, else the default SQLite URL.
pub fn resolve_database_url(config: &StumpConfig, manifest_dir: &str) -> (r: String)
    ensures
        r@ == match config.database_url {
            Some(url) => url@,
            None => default_sqlite_url_spec(
                config.profile@,
                config.config_dir@,
                opt_view(config.db_path),
                manifest_dir@,
            ),
        },
{
    match &config.database_url {
        Some(url) => url.clone(),
        None => default_sqlite_url(config, manifest_dir),
    }
}

} // verus!
