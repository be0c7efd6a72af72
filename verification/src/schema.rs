//! The per-provider Prisma schemas derived from the shared schema.

use vstd::prelude::*;
use crate::text::{chars_of, replace_all, replace_chars, string_from_chars};

verus! {

/// The provider line of the shared schema.
pub open spec fn sqlite_provider_line() -> Seq<char> {
    "  provider = \"sqlite\""@
}

/// The provider line of the PostgreSQL schema.
pub open spec fn postgres_provider_line() -> Seq<char> {
    "  provider = \"postgresql\""@
}

/// The URL line of the shared schema.
pub open spec fn file_url_line() -> Seq<char> {
    "  url      = \"file:dev.db\""@
}

/// The URL line of the PostgreSQL schema.
pub open spec fn env_url_line() -> Seq<char> {
    "  url      = env(\"DATABASE_URL\")"@
}

/// The SQLite schema: the shared schema with its provider line put back as it
/// is.
pub open spec fn sqlite_schema_of(shared: Seq<char>) -> Seq<char> {
    replace_all(shared, sqlite_provider_line(), sqlite_provider_line())
}

/// The PostgreSQL schema: the shared schema with the PostgreSQL provider and
/// the URL read from the environment.
pub open spec fn postgres_schema_of(shared: Seq<char>) -> Seq<char> {
    replace_all(
        replace_all(shared, sqlite_provider_line(), postgres_provider_line()),
        file_url_line(),
        env_url_line(),
    )
}

/// `s` with every `from` replaced by `to`.
fn replace_text(s: &str, from: &str, to: &str) -> (r: String)
    requires
        from@.len() > 0,
    ensures
        r@ == replace_all(s@, from@, to@),
{
    let sv = chars_of(s);
    let fv = chars_of(from);
    let tv = chars_of(to);
    let out = replace_chars(&sv, &fv, &tv);
    string_from_chars(&out)
}

/// The SQLite and PostgreSQL schemas derived from the shared one.
pub fn provider_schemas(shared: &str) -> (r: (String, String))
    ensures
        r.0@ == sqlite_schema_of(shared@),
        r.1@ == postgres_schema_of(shared@),
{
    proof {
        reveal_strlit("  provider = \"sqlite\"");
        reveal_strlit("  url      = \"file:dev.db\"");
    }
    let sqlite = replace_text(shared, "  provider = \"sqlite\"", "  provider = \"sqlite\"");
    let pushed = replace_text(shared, "  provider = \"sqlite\"", "  provider = \"postgresql\"");
    let postgres = replace_text(pushed.as_str(), "  url      = \"file:dev.db\"", "  url      = env(\"DATABASE_URL\")");
    (sqlite, postgres)
}

/// Replacing a text by itself changes nothing.
pub proof fn lemma_replace_by_itself(s: Seq<char>, p: Seq<char>)
    requires
        p.len() > 0,
    ensures
        replace_all(s, p, p) == s,
    decreases s.len(),
{
    if s.len() < p.len() {
    } else if s.take(p.len() as int) =~= p {
        lemma_replace_by_itself(s.skip(p.len() as int), p);
        assert(s.take(p.len() as int) + s.skip(p.len() as int) =~= s);
    } else {
        lemma_replace_by_itself(s.skip(1), p);
        assert(seq![s[0]] + s.skip(1) =~= s);
    }
}

/// The SQLite schema is the shared schema unchanged.
pub proof fn lemma_sqlite_schema_is_shared(shared: Seq<char>)
    ensures
        sqlite_schema_of(shared) == shared,
{
    reveal_strlit("  provider = \"sqlite\"");
    lemma_replace_by_itself(shared, sqlite_provider_line());
}

} // verus!
