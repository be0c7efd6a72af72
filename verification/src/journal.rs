//! SQLite journal modes and the decisions around the `PRAGMA journal_mode`
//! statements: when they may run, what they say, and what their rows mean.

use vstd::prelude::*;
use crate::backend::{get_active_backend, ActiveBackend, DatabaseBackend};
use crate::text::{eq_ignore_ascii_case, equals_ignore_ascii_case};

verus! {

/// The SQLite journal modes the server uses.
#[derive(Debug, Clone, Copy, PartialEq, Eq, Structural)]
pub enum JournalMode {
    WAL,
    DELETE,
}

impl Default for JournalMode {
    fn default() -> (r: Self)
        ensures
            r == JournalMode::WAL,
    {
        JournalMode::WAL
    }
}

/// The name SQLite gives a journal mode.
pub open spec fn journal_mode_name(mode: JournalMode) -> Seq<char> {
    match mode {
        JournalMode::WAL => "WAL"@,
        JournalMode::DELETE => "DELETE"@,
    }
}

/// The message of a refused journal mode name.
pub open spec fn invalid_mode_message(s: Seq<char>) -> Seq<char> {
    "Invalid or unsupported journal mode: "@ + s
}

/// What parsing a journal mode name gives.
pub open spec fn parse_journal_mode(s: Seq<char>) -> Result<JournalMode, Seq<char>> {
    if eq_ignore_ascii_case(s, "WAL"@) {
        Ok(JournalMode::WAL)
    } else if eq_ignore_ascii_case(s, "DELETE"@) {
        Ok(JournalMode::DELETE)
    } else {
        Err(invalid_mode_message(s))
    }
}

impl JournalMode {
    /// The name SQLite gives this journal mode.
    pub fn as_str(&self) -> (r: &'static str)
        ensures
            r@ == journal_mode_name(*self),
    {
        match self {
            JournalMode::WAL => "WAL",
            JournalMode::DELETE => "DELETE",
        }
    }

    /// Parses a journal mode name without regard to case (no character but
    /// an ASCII letter upper-cases into one of these names).
    pub fn from_str(s: &str) -> (r: Result<JournalMode, String>)
        ensures
            match parse_journal_mode(s@) {
                Ok(m) => r == Ok::<JournalMode, String>(m),
                Err(msg) => r is Err && r->Err_0@ == msg,
            },
    {
        if equals_ignore_ascii_case(s, "WAL") {
            Ok(JournalMode::WAL)
        } else if equals_ignore_ascii_case(s, "DELETE") {
            Ok(JournalMode::DELETE)
        } else {
            let mut msg = "Invalid or unsupported journal mode: ".to_owned();
            msg.append(s);
            Err(msg)
        }
    }
}

impl AsRef<str> for JournalMode {
    fn as_ref(&self) -> (r: &str)
        ensures
            r@ == journal_mode_name(*self),
    {
        self.as_str()
    }
}

impl std::str::FromStr for JournalMode {
    type Err = String;

    fn from_str(s: &str) -> (r: Result<Self, String>)
        ensures
            match parse_journal_mode(s@) {
                Ok(m) => r == Ok::<JournalMode, String>(m),
                Err(msg) => r is Err && r->Err_0@ == msg,
            },
    {
        JournalMode::from_str(s)
    }
}

/// A row of the answer to a `PRAGMA journal_mode` statement.
pub struct JournalModeQueryResult {
    pub journal_mode: JournalMode,
}

/// Failures of the database logic.
#[derive(Debug)]
pub enum CoreError {
    /// The request cannot be served as asked.
    BadRequest(String),
    /// The database did something it should not have.
    InternalError(String),
    /// A schema migration failed.
    MigrationError(String),
}

/// The text of the refusal of journal-mode statements on a backend other than
/// SQLite.
pub open spec fn pragma_refusal() -> Seq<char> {
    "Journal mode is only supported for SQLite databases"@
}

/// Journal-mode statements are only run on SQLite: anything else is refused.
pub fn check_journal_mode_support(active: &ActiveBackend) -> (r: Result<(), CoreError>)
    ensures
        active@ == DatabaseBackend::Sqlite <==> r is Ok,
        r is Err ==> r->Err_0 is BadRequest && r->Err_0->BadRequest_0@ == pragma_refusal(),
{
    if get_active_backend(active) != DatabaseBackend::Sqlite {
        return Err(CoreError::BadRequest("Journal mode is only supported for SQLite databases".to_owned()));
    }
    Ok(())
}

/// The statement that reads (`None`) or sets (`Some`) the journal mode.
pub open spec fn journal_mode_statement(mode: Option<JournalMode>) -> Seq<char> {
    match mode {
        None => "PRAGMA journal_mode;"@,
        Some(m) => "PRAGMA journal_mode="@ + journal_mode_name(m) + ";"@,
    }
}

/// The statement that reads (`None`) or sets (`Some`) the journal mode.
pub fn journal_mode_query(mode: Option<JournalMode>) -> (r: String)
    ensures
        r@ == journal_mode_statement(mode),
{
    match mode {
        None => "PRAGMA journal_mode;".to_owned(),
        Some(m) => {
            let mut q = "PRAGMA journal_mode=".to_owned();
            q.append(m.as_str());
            q.append(";");
            q
        },
    }
}

/// The journal mode a reading statement answered: that of the first row, or
/// the default (WAL) when there is none.
pub fn read_journal_mode(rows: &Vec<JournalModeQueryResult>) -> (r: JournalMode)
    ensures
        rows.len() > 0 ==> r == rows@[0].journal_mode,
        rows.len() == 0 ==> r == JournalMode::WAL,
{
    if rows.len() > 0 {
        rows[0].journal_mode
    } else {
        JournalMode::default()
    }
}

/// The journal mode a setting statement answered: that of the first row; no
/// row at all means the mode was not set.
pub fn written_journal_mode(rows: &Vec<JournalModeQueryResult>) -> (r: Result<JournalMode, CoreError>)
    ensures
        rows.len() > 0 ==> r is Ok && r->Ok_0 == rows@[0].journal_mode,
        rows.len() == 0 ==> r is Err && r->Err_0 is InternalError && r->Err_0->InternalError_0@
            == "Journal mode failed to be set"@,
{
    if rows.len() > 0 {
        Ok(rows[0].journal_mode)
    } else {
        Err(CoreError::InternalError("Journal mode failed to be set".to_owned()))
    }
}

/// The statement that sets a journal mode is `PRAGMA journal_mode=`, the
/// SQLite name of the mode and `;`: setting WAL says `PRAGMA journal_mode=WAL;`,
/// setting DELETE says `PRAGMA journal_mode=DELETE;`. The name inside it reads
/// back as that mode, so the statements that set two modes differ, and none of
/// them is the statement that only reads the mode.
pub proof fn lemma_setting_statement_names_the_mode(mode: JournalMode, other: JournalMode)
    ensures
        ({
            let q = journal_mode_statement(Some(mode));
            &&& q.len() == 21 + journal_mode_name(mode).len()
            &&& q.subrange(0, 20) == "PRAGMA journal_mode="@
            &&& q.subrange(20, q.len() - 1) == journal_mode_name(mode)
            &&& q.last() == ';'
            &&& parse_journal_mode(q.subrange(20, q.len() - 1)) == Ok::<JournalMode, Seq<char>>(mode)
        }),
        mode == JournalMode::WAL ==> journal_mode_statement(Some(mode)) == "PRAGMA journal_mode=WAL;"@,
        mode == JournalMode::DELETE ==> journal_mode_statement(Some(mode))
            == "PRAGMA journal_mode=DELETE;"@,
        mode != other ==> journal_mode_statement(Some(mode)) != journal_mode_statement(Some(other)),
        journal_mode_statement(Some(mode)) != journal_mode_statement(None),
{
    reveal_strlit("PRAGMA journal_mode=");
    reveal_strlit("PRAGMA journal_mode;");
    reveal_strlit("PRAGMA journal_mode=WAL;");
    reveal_strlit("PRAGMA journal_mode=DELETE;");
    reveal_strlit("WAL");
    reveal_strlit("DELETE");
    reveal_strlit(";");
    let q = journal_mode_statement(Some(mode));
    let name = journal_mode_name(mode);
    assert(q.subrange(0, 20) =~= "PRAGMA journal_mode="@);
    assert(q.subrange(20, q.len() - 1) =~= name);
    lemma_journal_mode_name_round_trip(mode);
    match mode {
        JournalMode::WAL => {
            assert(q =~= "PRAGMA journal_mode=WAL;"@);
        },
        JournalMode::DELETE => {
            assert(q =~= "PRAGMA journal_mode=DELETE;"@);
        },
    }
    if mode != other {
        let r = journal_mode_statement(Some(other));
        assert(r.subrange(20, r.len() - 1) =~= journal_mode_name(other));
        lemma_journal_mode_name_round_trip(other);
        if q == r {
            assert(q.subrange(20, q.len() - 1) == r.subrange(20, r.len() - 1));
        }
    }
    assert(q[19] == '=');
    assert(journal_mode_statement(None)[19] == ';');
}

/// Parsing the name of a journal mode gives that mode back.
pub proof fn lemma_journal_mode_name_round_trip(mode: JournalMode)
    ensures
        parse_journal_mode(journal_mode_name(mode)) == Ok::<JournalMode, Seq<char>>(mode),
{
    reveal_strlit("WAL");
    reveal_strlit("DELETE");
    match mode {
        JournalMode::WAL => {
            assert(eq_ignore_ascii_case("WAL"@, "WAL"@));
        },
        JournalMode::DELETE => {
            assert(crate::text::ascii_lowercase("DELETE"@).len() != crate::text::ascii_lowercase(
                "WAL"@,
            ).len());
            assert(eq_ignore_ascii_case("DELETE"@, "DELETE"@));
        },
    }
}

} // verus!
