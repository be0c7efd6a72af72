//! Media listings in random order: when a random order is asked for, the SQL
//! query that draws the random ids, the count reported beside them, and the
//! re-ordering of fetched media into the drawn order.

use vstd::prelude::*;
use crate::sql::{comma_join, sql_literals, sql_string_list};
use crate::text::{eq_ignore_ascii_case, equals_ignore_ascii_case, same_text};

verus! {

/// Whether a listing's `order_by` asks for a random order (`random`, in any
/// ASCII case).
pub fn is_random_ordering(order_by: &str) -> (r: bool)
    ensures
        r == eq_ignore_ascii_case(order_by@, "random"@),
{
    equals_ignore_ascii_case(order_by, "random")
}

/// The pagination of a listing.
#[derive(Debug, Clone, Copy, PartialEq, Eq, Structural)]
pub enum Pagination {
    /// All results at once.
    Unpaged,
    /// One page: `skip` results left out, then at most `take`.
    Page { skip: i64, take: i64 },
    /// Cursor-based paging.
    Cursor,
}

/// Failures of the API logic.
#[derive(Debug)]
pub enum ApiError {
    BadRequest(String),
}

/// A SQL query with `{}` placeholders and the integers bound to them.
pub struct RawQuery {
    pub sql: String,
    pub params: Vec<i64>,
}

/// The text of the refusal of cursor pagination.
pub open spec fn cursor_refusal() -> Seq<char> {
    "Random ordering does not support cursor pagination"@
}

/// Random ordering cannot be combined with cursor pagination.
pub fn check_random_pagination(pagination: &Pagination) -> (r: Result<(), ApiError>)
    ensures
        r is Ok <==> !(*pagination is Cursor),
        r is Err ==> r->Err_0->BadRequest_0@ == cursor_refusal(),
{
    match pagination {
        Pagination::Cursor => Err(
            ApiError::BadRequest("Random ordering does not support cursor pagination".to_owned()),
        ),
        _ => Ok(()),
    }
}

/// The total reported beside random ids: the number of candidates, except
/// for unpaged listings, which report none.
pub fn random_ids_count(pagination: &Pagination, candidates: usize) -> (r: Option<i64>)
    ensures
        r == (if *pagination is Unpaged {
            None
        } else {
            Some(candidates as i64)
        }),
{
    match pagination {
        Pagination::Unpaged => None,
        _ => Some(candidates as i64),
    }
}

/// The query text for a list of quoted ids, paged or not.
pub open spec fn random_query_text(id_list: Seq<char>, paged: bool) -> Seq<char> {
    if paged {
        "\n\t\t\t\t\tSELECT id FROM media\n\t\t\t\t\tWHERE id IN ("@ + id_list
            + ")\n\t\t\t\t\tORDER BY RANDOM()\n\t\t\t\t\tLIMIT {} OFFSET {}\n\t\t\t\t\t"@
    } else {
        "\n\t\t\t\tSELECT id FROM media\n\t\t\t\tWHERE id IN ("@ + id_list
            + ")\n\t\t\t\tORDER BY RANDOM()\n\t\t\t\t"@
    }
}

/// The query that draws the given ids in random order: one page of them
/// (`LIMIT take OFFSET skip`) or all of them.
pub fn randomized_media_ids_query(ids: &[String], pagination: &Pagination) -> (r: RawQuery)
    requires
        !(*pagination is Cursor),
    ensures
        r.sql@ == random_query_text(comma_join(sql_literals(ids@)), *pagination is Page),
        match *pagination {
            Pagination::Page { skip, take } => r.params@ == seq![take, skip],
            _ => r.params@.len() == 0,
        },
{
    let id_list = sql_string_list(ids);
    match pagination {
        Pagination::Page { skip, take } => {
            let mut sql = "\n\t\t\t\t\tSELECT id FROM media\n\t\t\t\t\tWHERE id IN (".to_owned();
            sql.append(id_list.as_str());
            sql.append(")\n\t\t\t\t\tORDER BY RANDOM()\n\t\t\t\t\tLIMIT {} OFFSET {}\n\t\t\t\t\t");
            let mut params: Vec<i64> = Vec::new();
            params.push(*take);
            params.push(*skip);
            assert(params@ =~= seq![*take, *skip]);
            RawQuery { sql, params }
        },
        _ => {
            let mut sql = "\n\t\t\t\tSELECT id FROM media\n\t\t\t\tWHERE id IN (".to_owned();
            sql.append(id_list.as_str());
            sql.append(")\n\t\t\t\tORDER BY RANDOM()\n\t\t\t\t");
            RawQuery { sql, params: Vec::new() }
        },
    }
}

/// What to do once the candidate ids are known.
pub enum RandomIdsStep {
    /// Nothing to draw from: answer with these ids and count.
    Finished { ids: Vec<String>, count: Option<i64> },
    /// Run the query; its ids are the answer, with this count.
    RunQuery { query: RawQuery, count: Option<i64> },
}

/// The step after the candidates are fetched: with no candidate the answer
/// is empty, otherwise the drawing query runs over all of them.
pub fn plan_randomized_media_ids(pagination: &Pagination, candidate_ids: &Vec<String>) -> (r:
    RandomIdsStep)
    requires
        !(*pagination is Cursor),
    ensures
        candidate_ids.len() == 0 ==> (r matches RandomIdsStep::Finished { ids, count } && ids@.len()
            == 0 && count == (if *pagination is Unpaged {
            None
        } else {
            Some(0i64)
        })),
        candidate_ids.len() > 0 ==> (r matches RandomIdsStep::RunQuery { query, count }
            && query.sql@ == random_query_text(
            comma_join(sql_literals(candidate_ids@)),
            *pagination is Page,
        ) && (match *pagination {
            Pagination::Page { skip, take } => query.params@ == seq![take, skip],
            _ => query.params@.len() == 0,
        }) && count == (if *pagination is Unpaged {
            None
        } else {
            Some(candidate_ids.len() as i64)
        })),
{
    if candidate_ids.len() == 0 {
        let count = random_ids_count(pagination, 0);
        return RandomIdsStep::Finished { ids: Vec::new(), count };
    }
    let query = randomized_media_ids_query(candidate_ids.as_slice(), pagination);
    let count = random_ids_count(pagination, candidate_ids.len());
    RandomIdsStep::RunQuery { query, count }
}

/// The views of a list of strings.
pub open spec fn string_views(v: Seq<String>) -> Seq<Seq<char>> {
    v.map_values(|s: String| s@)
}

/// The position of the last key equal to `id`.
pub open spec fn last_position(keys: Seq<Seq<char>>, id: Seq<char>) -> Option<int>
    decreases keys.len(),
{
    if keys.len() == 0 {
        None
    } else if keys.last() == id {
        Some(keys.len() - 1)
    } else {
        last_position(keys.drop_last(), id)
    }
}

/// The positions of the media answering the requested ids, in request order:
/// for each id asked for the first time, the last media with that id, if any.
pub open spec fn picked_positions(keys: Seq<Seq<char>>, ids: Seq<Seq<char>>) -> Seq<int>
    decreases ids.len(),
{
    if ids.len() == 0 {
        Seq::empty()
    } else {
        let prev = picked_positions(keys, ids.drop_last());
        let id = ids.last();
        if !ids.drop_last().contains(id) && last_position(keys, id) is Some {
            prev.push(last_position(keys, id)->0)
        } else {
            prev
        }
    }
}

proof fn lemma_last_position(keys: Seq<Seq<char>>, id: Seq<char>)
    ensures
        match last_position(keys, id) {
            Some(i) => 0 <= i < keys.len() && keys[i] == id && forall|j: int|
                i < j < keys.len() ==> keys[j] != id,
            None => forall|j: int| 0 <= j < keys.len() ==> keys[j] != id,
        },
    decreases keys.len(),
{
    if keys.len() > 0 {
        lemma_last_position(keys.drop_last(), id);
        if keys.last() != id {
            assert forall|j: int| 0 <= j < keys.len() - 1 implies keys[j] == keys.drop_last()[j] by {}
        }
    }
}

proof fn lemma_picked_keys(keys: Seq<Seq<char>>, ids: Seq<Seq<char>>)
    ensures
        forall|k: int|
            0 <= k < picked_positions(keys, ids).len() ==> {
                let q = #[trigger] picked_positions(keys, ids)[k];
                &&& 0 <= q < keys.len()
                &&& ids.contains(keys[q])
            },
    decreases ids.len(),
{
    if ids.len() > 0 {
        lemma_picked_keys(keys, ids.drop_last());
        lemma_last_position(keys, ids.last());
        let prev = picked_positions(keys, ids.drop_last());
        assert forall|k: int| 0 <= k < picked_positions(keys, ids).len() implies {
            let q = #[trigger] picked_positions(keys, ids)[k];
            &&& 0 <= q < keys.len()
            &&& ids.contains(keys[q])
        } by {
            let q = picked_positions(keys, ids)[k];
            if k < prev.len() {
                assert(q == prev[k]);
                let m = choose|m: int| 0 <= m < ids.drop_last().len() && ids.drop_last()[m] == keys[q];
                assert(ids[m] == keys[q]);
            } else {
                assert(ids[ids.len() - 1] == keys[q]);
            }
        }
    }
}

/// The media in the order of the requested ids: for each id asked for the
/// first time, the last media with that id; ids without media, and repeated
/// ids, give nothing. `media_ids[i]` is the id of `media[i]`.
pub fn sort_media_by_ids<T>(media: Vec<T>, media_ids: &Vec<String>, ids: &[String]) -> (r: Vec<T>)
    requires
        media.len() == media_ids.len(),
    ensures
        r@ == picked_positions(string_views(media_ids@), string_views(ids@)).map_values(
            |i: int| media@[i],
        ),
{
    let ghost keys = string_views(media_ids@);
    let ghost wanted = string_views(ids@);
    let ghost original = media@;
    let n = media.len();
    let mut media = media;
    let mut slots: Vec<Option<T>> = Vec::new();
    let mut j: usize = 0;
    while j < n
        invariant
            j <= n,
            slots@.len() == j,
            forall|k: int| 0 <= k < j ==> slots@[k] is None,
        decreases n - j,
    {
        slots.push(None);
        j = j + 1;
    }
    while media.len() > 0
        invariant
            slots@.len() == n,
            media@.len() <= n,
            media@ == original.take(media@.len() as int),
            original.len() == n,
            forall|k: int| 0 <= k < media@.len() ==> slots@[k] is None,
            forall|k: int| media@.len() <= k < n ==> slots@[k] == Some(original[k]),
        decreases media.len(),
    {
        let last = media.len() - 1;
        let x = media.pop().unwrap();
        slots.set(last, Some(x));
        assert(media@ =~= original.take(media@.len() as int));
    }
    let mut out: Vec<T> = Vec::new();
    let mut k: usize = 0;
    while k < ids.len()
        invariant
            k <= ids.len(),
            n == media_ids.len(),
            slots@.len() == n,
            original.len() == n,
            keys == string_views(media_ids@),
            wanted == string_views(ids@),
            out@ == picked_positions(keys, wanted.take(k as int)).map_values(|i: int| original[i]),
            forall|q: int|
                0 <= q < n ==> #[trigger] slots@[q] == (if picked_positions(keys, wanted.take(k as int)).contains(q) {
                    None
                } else {
                    Some(original[q])
                }),
        decreases ids.len() - k,
    {
        let ghost before = wanted.take(k as int);
        let ghost after = wanted.take(k + 1);
        assert(after.drop_last() =~= before);
        assert(after.last() == ids@[k as int]@);
        let mut seen = false;
        let mut m: usize = 0;
        while m < k
            invariant
                m <= k < ids.len(),
                wanted == string_views(ids@),
                before == wanted.take(k as int),
                seen == exists|a: int| 0 <= a < m && before[a] == ids@[k as int]@,
            decreases k - m,
        {
            if same_text(ids[m].as_str(), ids[k].as_str()) {
                assert(before[m as int] == ids@[k as int]@);
                seen = true;
            }
            m = m + 1;
        }
        assert(seen == before.contains(ids@[k as int]@));
        proof {
            lemma_last_position(keys, ids@[k as int]@);
            lemma_picked_keys(keys, before);
        }
        if !seen {
            let mut p: usize = n;
            let mut hit: Option<usize> = None;
            while p > 0 && hit.is_none()
                invariant
                    k < ids@.len(),
                    p <= n,
                    n == media_ids.len(),
                    keys == string_views(media_ids@),
                    match hit {
                        Some(h) => h < n && keys[h as int] == ids@[k as int]@ && forall|q: int|
                            h < q < n ==> keys[q] != ids@[k as int]@,
                        None => forall|q: int| p <= q < n ==> keys[q] != ids@[k as int]@,
                    },
                decreases p,
            {
                if same_text(media_ids[p - 1].as_str(), ids[k].as_str()) {
                    hit = Some(p - 1);
                }
                p = p - 1;
            }
            if let Some(p) = hit {
                assert(last_position(keys, ids@[k as int]@) == Some(p as int));
                assert(!picked_positions(keys, before).contains(p as int)) by {
                    if picked_positions(keys, before).contains(p as int) {
                        let t = choose|t: int|
                            0 <= t < picked_positions(keys, before).len() && picked_positions(
                                keys,
                                before,
                            )[t] == p as int;
                        assert(before.contains(keys[p as int]));
                    }
                }
                let ghost before_slots = slots@;
                let ghost prev = picked_positions(keys, before);
                let mut tmp: Option<T> = None;
                slots.set_and_swap(p, &mut tmp);
                assert(tmp == Some(original[p as int]));
                assert(picked_positions(keys, after) == prev.push(p as int));
                assert forall|q: int| 0 <= q < n implies #[trigger] slots@[q] == (if picked_positions(
                    keys,
                    after,
                ).contains(q) {
                    None
                } else {
                    Some(original[q])
                }) by {
                    if q != p {
                        assert(slots@[q] == before_slots[q]);
                        if prev.push(p as int).contains(q) {
                            let t = choose|t: int| 0 <= t < prev.len() + 1 && prev.push(p as int)[t] == q;
                            assert(t < prev.len());
                            assert(prev[t] == q);
                        }
                        if prev.contains(q) {
                            let t = choose|t: int| 0 <= t < prev.len() && prev[t] == q;
                            assert(prev.push(p as int)[t] == q);
                        }
                    } else {
                        assert(prev.push(p as int)[prev.len() as int] == p);
                    }
                }
                match tmp {
                    Some(x) => {
                        out.push(x);
                    },
                    None => {},
                }
                assert(picked_positions(keys, after).map_values(|i: int| original[i]) =~= picked_positions(keys, before).map_values(|i: int| original[i]).push(original[p as int]));
            } else {
                assert(last_position(keys, ids@[k as int]@) is None);
                assert(picked_positions(keys, after) == picked_positions(keys, before));
            }
        } else {
            assert(picked_positions(keys, after) == picked_positions(keys, before));
        }
        k = k + 1;
    }
    assert(wanted.take(ids.len() as int) =~= wanted);
    out
}

} // verus!
