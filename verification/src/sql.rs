//! SQL text built by hand: quoted string literals, lists of them, and the
//! null-coalescing function of the active backend.

use vstd::prelude::*;
use crate::backend::{get_active_backend, ActiveBackend, DatabaseBackend};
use crate::text::{chars_of, replace_all, replace_chars, string_from_chars};

verus! {

/// The body of a quoted literal: every `'` doubled.
pub open spec fn escape_quotes(v: Seq<char>) -> Seq<char> {
    replace_all(v, seq!['\''], seq!['\'', '\''])
}

/// The SQL string literal that denotes `v`.
pub open spec fn sql_literal(v: Seq<char>) -> Seq<char> {
    seq!['\''] + escape_quotes(v) + seq!['\'']
}

/// The elements of `parts` separated by commas.
pub open spec fn comma_join(parts: Seq<Seq<char>>) -> Seq<char>
    decreases parts.len(),
{
    if parts.len() == 0 {
        Seq::empty()
    } else if parts.len() == 1 {
        parts[0]
    } else {
        comma_join(parts.drop_last()) + seq![','] + parts.last()
    }
}

/// The literals of a list of strings.
pub open spec fn sql_literals(values: Seq<String>) -> Seq<Seq<char>> {
    values.map_values(|v: String| sql_literal(v@))
}

/// The text a SQL engine reads from the inside of a quoted literal: a doubled
/// `'` stands for one `'`.
pub open spec fn unescape_quotes(t: Seq<char>) -> Seq<char>
    decreases t.len(),
{
    if t.len() == 0 {
        t
    } else if t.len() >= 2 && t[0] == '\'' && t[1] == '\'' {
        seq!['\''] + unescape_quotes(t.skip(2))
    } else {
        seq![t[0]] + unescape_quotes(t.skip(1))
    }
}

/// Whether every `'` in `t` is one of a doubled pair, so that no quote in it
/// ends the literal.
pub open spec fn quotes_paired(t: Seq<char>) -> bool
    decreases t.len(),
{
    if t.len() == 0 {
        true
    } else if t[0] == '\'' {
        t.len() >= 2 && t[1] == '\'' && quotes_paired(t.skip(2))
    } else {
        quotes_paired(t.skip(1))
    }
}

/// The string a quoted literal denotes.
pub open spec fn literal_value(lit: Seq<char>) -> Seq<char> {
    unescape_quotes(lit.subrange(1, lit.len() - 1))
}

/// Escaping the quotes of any text gives a body whose quotes are all paired,
/// and reading that body back gives the text.
pub proof fn lemma_escape_round_trip(v: Seq<char>)
    ensures
        unescape_quotes(escape_quotes(v)) == v,
        quotes_paired(escape_quotes(v)),
    decreases v.len(),
{
    let q = seq!['\''];
    let qq = seq!['\'', '\''];
    if v.len() == 0 {
    } else {
        lemma_escape_round_trip(v.skip(1));
        let rest = escape_quotes(v.skip(1));
        if v[0] == '\'' {
            assert(v.take(1) =~= q);
            assert(escape_quotes(v) == qq + rest);
            assert((qq + rest).skip(2) =~= rest);
            assert(unescape_quotes(qq + rest) == q + unescape_quotes(rest));
            assert(q + v.skip(1) =~= v);
        } else {
            assert(v.take(1) !~= q) by {
                assert(v.take(1)[0] != q[0]);
            }
            assert(escape_quotes(v) == seq![v[0]] + rest);
            assert((seq![v[0]] + rest).skip(1) =~= rest);
            assert(seq![v[0]] + v.skip(1) =~= v);
        }
    }
}

/// A quoted literal names exactly the text it was made from, and none of the
/// quotes inside it can end it early.
pub proof fn lemma_sql_literal_round_trip(v: Seq<char>)
    ensures
        literal_value(sql_literal(v)) == v,
        sql_literal(v)[0] == '\'',
        sql_literal(v).last() == '\'',
        quotes_paired(sql_literal(v).subrange(1, sql_literal(v).len() - 1)),
{
    lemma_escape_round_trip(v);
    let lit = sql_literal(v);
    assert(lit.subrange(1, lit.len() - 1) =~= escape_quotes(v));
}

/// Where part `i` of a comma-separated list of `parts` starts: after the
/// parts before it, each followed by its comma.
pub open spec fn part_start(parts: Seq<Seq<char>>, i: int) -> int
    decreases i,
{
    if i <= 0 {
        0
    } else {
        part_start(parts, i - 1) + parts[i - 1].len() + 1
    }
}

proof fn lemma_part_start_prefix(parts: Seq<Seq<char>>, n: int, i: int)
    requires
        0 <= i <= n <= parts.len(),
    ensures
        part_start(parts.take(n), i) == part_start(parts, i),
    decreases i,
{
    if i > 0 {
        lemma_part_start_prefix(parts, n, i - 1);
    }
}

proof fn lemma_part_start_monotone(parts: Seq<Seq<char>>, i: int, j: int)
    requires
        0 <= i <= j,
    ensures
        part_start(parts, i) + (j - i) <= part_start(parts, j),
    decreases j,
{
    if i < j {
        lemma_part_start_monotone(parts, i, j - 1);
    }
}

proof fn lemma_comma_join_len(parts: Seq<Seq<char>>)
    requires
        parts.len() > 0,
    ensures
        comma_join(parts).len() == part_start(parts, parts.len() as int) - 1,
    decreases parts.len(),
{
    let n = parts.len() as int;
    assert(part_start(parts, n) == part_start(parts, n - 1) + parts[n - 1].len() + 1);
    if n >= 2 {
        let d = parts.drop_last();
        lemma_comma_join_len(d);
        assert(d =~= parts.take(n - 1));
        lemma_part_start_prefix(parts, n - 1, n - 1);
        assert(comma_join(parts) == comma_join(d) + seq![','] + parts.last());
    } else {
        assert(part_start(parts, 0) == 0);
    }
}

proof fn lemma_comma_join_part(parts: Seq<Seq<char>>, i: int)
    requires
        0 <= i < parts.len(),
    ensures
        comma_join(parts).subrange(part_start(parts, i), part_start(parts, i) + parts[i].len())
            == parts[i],
    decreases parts.len(),
{
    let n = parts.len() as int;
    let t = comma_join(parts);
    if n == 1 {
        assert(t.subrange(0, parts[0].len() as int) =~= parts[0]);
    } else {
        let d = parts.drop_last();
        let u = comma_join(d);
        lemma_comma_join_len(d);
        assert(d =~= parts.take(n - 1));
        lemma_part_start_prefix(parts, n - 1, n - 1);
        lemma_part_start_prefix(parts, n - 1, i);
        assert(t == u + seq![','] + parts.last());
        if i < n - 1 {
            lemma_comma_join_part(d, i);
            lemma_part_start_monotone(parts, i + 1, n - 1);
            assert(part_start(parts, i + 1) == part_start(parts, i) + parts[i].len() + 1);
            assert(d[i] == parts[i]);
            assert(part_start(d, i) == part_start(parts, i));
            assert(part_start(parts, i) + parts[i].len() <= u.len());
            let a = part_start(parts, i);
            let l = parts[i].len() as int;
            lemma_part_start_monotone(parts, 0, i);
            assert(part_start(parts, 0) == 0);
            let uc = u + seq![','];
            assert forall|j: int| 0 <= j < l implies #[trigger] t.subrange(a, a + l)[j] == u.subrange(
                a,
                a + l,
            )[j] by {
                assert(uc[a + j] == u[a + j]);
                assert(t[a + j] == uc[a + j]);
            }
            assert(t.subrange(a, a + l) =~= u.subrange(a, a + l));
            assert(u.subrange(a, a + l) == d[i]);
        } else {
            assert(t.subrange(part_start(parts, i), part_start(parts, i) + parts[i].len())
                =~= parts.last());
        }
    }
}

proof fn lemma_comma_join_comma(parts: Seq<Seq<char>>, i: int)
    requires
        0 < i < parts.len(),
    ensures
        comma_join(parts)[part_start(parts, i) - 1] == ',',
    decreases parts.len(),
{
    let n = parts.len() as int;
    let t = comma_join(parts);
    let d = parts.drop_last();
    let u = comma_join(d);
    lemma_comma_join_len(d);
    assert(d =~= parts.take(n - 1));
    lemma_part_start_prefix(parts, n - 1, n - 1);
    lemma_part_start_prefix(parts, n - 1, i);
    assert(t == u + seq![','] + parts.last());
    if i < n - 1 {
        lemma_comma_join_comma(d, i);
        lemma_part_start_monotone(parts, i, n - 1);
        lemma_part_start_monotone(parts, 1, i);
        assert(part_start(parts, 1) == part_start(parts, 0) + parts[0].len() + 1);
        assert(part_start(parts, 0) == 0);
        assert(t[part_start(parts, i) - 1] == u[part_start(d, i) - 1]);
    }
}

/// A list of quoted literals holds one literal per value, in order: the
/// literal of value `i` sits at `part_start` of the literals, reads back as
/// value `i`, and is followed by a comma unless it is the last, which ends
/// the list.
pub proof fn lemma_sql_list_holds_each_value(values: Seq<String>)
    ensures
        ({
            let lits = sql_literals(values);
            let t = comma_join(lits);
            &&& values.len() == 0 ==> t.len() == 0
            &&& values.len() > 0 ==> t.len() == part_start(lits, values.len() as int) - 1
            &&& forall|i: int|
                0 <= i < values.len() ==> {
                    let part = t.subrange(
                        part_start(lits, i),
                        part_start(lits, i) + sql_literal(values[i]@).len(),
                    );
                    &&& part == sql_literal(#[trigger] values[i]@)
                    &&& literal_value(part) == values[i]@
                }
            &&& forall|i: int|
                0 < i < values.len() ==> t[#[trigger] part_start(lits, i) - 1] == ','
        }),
{
    let lits = sql_literals(values);
    if values.len() > 0 {
        lemma_comma_join_len(lits);
    }
    assert forall|i: int| 0 < i < values.len() implies comma_join(lits)[#[trigger] part_start(lits, i) - 1]
        == ',' by {
        lemma_comma_join_comma(lits, i);
    }
    assert forall|i: int| 0 <= i < values.len() implies ({
        let part = comma_join(lits).subrange(
            part_start(lits, i),
            part_start(lits, i) + sql_literal(values[i]@).len(),
        );
        &&& part == sql_literal(#[trigger] values[i]@)
        &&& literal_value(part) == values[i]@
    }) by {
        assert(lits[i] == sql_literal(values[i]@));
        lemma_comma_join_part(lits, i);
        lemma_sql_literal_round_trip(values[i]@);
    }
}

/// `value` as a quoted SQL string literal, with its quotes doubled.
pub fn sql_string_literal(value: &str) -> (r: String)
    ensures
        r@ == sql_literal(value@),
{
    let v = chars_of(value);
    let mut from: Vec<char> = Vec::new();
    from.push('\'');
    let mut to: Vec<char> = Vec::new();
    to.push('\'');
    to.push('\'');
    assert(from@ =~= seq!['\'']);
    assert(to@ =~= seq!['\'', '\'']);
    let body = replace_chars(&v, &from, &to);
    let mut out: Vec<char> = Vec::new();
    out.push('\'');
    let mut i: usize = 0;
    while i < body.len()
        invariant
            i <= body.len(),
            out@ == seq!['\''] + body@.take(i as int),
        decreases body.len() - i,
    {
        out.push(body[i]);
        assert(body@.take(i + 1) =~= body@.take(i as int).push(body@[i as int]));
        i = i + 1;
    }
    out.push('\'');
    assert(body@.take(body.len() as int) =~= body@);
    string_from_chars(&out)
}

/// The values as quoted SQL literals, separated by commas.
pub fn sql_string_list(values: &[String]) -> (r: String)
    ensures
        r@ == comma_join(sql_literals(values@)),
{
    let mut out = String::new();
    let mut i: usize = 0;
    while i < values.len()
        invariant
            i <= values.len(),
            out@ == comma_join(sql_literals(values@).take(i as int)),
        decreases values.len() - i,
    {
        let lit = sql_string_literal(values[i].as_str());
        let ghost prefix = sql_literals(values@).take(i + 1);
        assert(prefix.drop_last() =~= sql_literals(values@).take(i as int));
        let ghost before = out@;
        if i > 0 {
            out.append(",");
        }
        out.append(lit.as_str());
        proof {
            reveal_strlit(",");
            assert(prefix.last() == lit@);
            if i == 0 {
                assert(comma_join(prefix) == prefix[0]);
                assert(comma_join(sql_literals(values@).take(0)) =~= Seq::<char>::empty());
                assert(out@ =~= prefix[0]);
            } else {
                assert(out@ =~= before + seq![','] + lit@);
                assert(out@ =~= comma_join(prefix.drop_last()) + seq![','] + prefix.last());
            }
        }
        i = i + 1;
    }
    assert(sql_literals(values@).take(values.len() as int) =~= sql_literals(values@));
    out
}

/// The name of the null-coalescing SQL function of a backend.
pub open spec fn coalesce_name(backend: DatabaseBackend) -> Seq<char> {
    match backend {
        DatabaseBackend::Sqlite => "IFNULL"@,
        DatabaseBackend::Postgres => "COALESCE"@,
    }
}

/// The null-coalescing SQL function of the selected backend.
pub fn coalesce_fn(active: &ActiveBackend) -> (r: &'static str)
    ensures
        r@ == coalesce_name(active@),
{
    match get_active_backend(active) {
        DatabaseBackend::Sqlite => "IFNULL",
        DatabaseBackend::Postgres => "COALESCE",
    }
}

} // verus!
