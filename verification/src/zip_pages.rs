//! Pages of ZIP (and CBZ) archives: which entries are pages, their natural
//! order, and what the processor reports about an archive, computed from the
//! listing of the archive's entries.

use vstd::prelude::*;
use std::collections::HashMap;
use vstd::multiset::Multiset;
use crate::content::{
    lemma_image_extensions_name_image_types, type_of_extension,
    extension_of, file_name, is_hidden_file, is_hidden_path, is_image_type, naive_content_type, naive_type_of,
    file_name_of, ContentType,
};
use crate::order::{alphanumeric_order, compare_names};
use crate::text::{ascii_lowercase, same_text};

verus! {

broadcast use vstd::seq_lib::group_to_multiset_ensures;

/// One entry of an archive, as its listing gives it.
pub struct ArchiveEntry {
    /// The entry's path inside the archive.
    pub name: String,
    /// Whether the entry is a directory.
    pub is_dir: bool,
}

/// A page: the position of its entry in the archive, and its content type.
#[derive(Debug, Clone, Copy, PartialEq, Eq, Structural)]
pub struct IndexedZipEntry {
    pub archive_index: usize,
    pub content_type: ContentType,
}

/// The pages of an archive, in reading order.
pub struct ZipPageIndex {
    pub entries: Vec<IndexedZipEntry>,
}

/// Failures of the archive logic.
#[derive(Debug, PartialEq, Eq)]
pub enum FileError {
    /// The archive holds no entry at all.
    ArchiveEmptyError,
    /// The requested page does not exist.
    NoImageError,
    /// Another failure, described by its message.
    UnknownError(String),
}

/// Whether an archive entry is a page: a file, not hidden, whose extension
/// names an image type.
pub open spec fn is_page_entry(e: ArchiveEntry) -> bool {
    &&& !e.is_dir
    &&& !is_hidden_path(e.name@)
    &&& is_image_type(naive_type_of(e.name@))
}

/// The page entries of an archive in archive order, each with its name.
pub open spec fn page_candidates(entries: Seq<ArchiveEntry>) -> Seq<(Seq<char>, IndexedZipEntry)>
    decreases entries.len(),
{
    if entries.len() == 0 {
        Seq::empty()
    } else {
        let prev = page_candidates(entries.drop_last());
        let e = entries.last();
        if is_page_entry(e) {
            prev.push(
                (
                    e.name@,
                    IndexedZipEntry {
                        archive_index: (entries.len() - 1) as usize,
                        content_type: naive_type_of(e.name@),
                    },
                ),
            )
        } else {
            prev
        }
    }
}

/// `x` inserted into `sorted` after the last element that does not come after
/// it in natural order.
pub open spec fn insert_by_name(
    sorted: Seq<(Seq<char>, IndexedZipEntry)>,
    x: (Seq<char>, IndexedZipEntry),
) -> Seq<(Seq<char>, IndexedZipEntry)>
    decreases sorted.len(),
{
    if sorted.len() == 0 {
        seq![x]
    } else if alphanumeric_order(sorted.last().0, x.0) > 0 {
        insert_by_name(sorted.drop_last(), x).push(sorted.last())
    } else {
        sorted.push(x)
    }
}

/// The stable sort of `c` by natural order of names.
pub open spec fn sort_by_name(c: Seq<(Seq<char>, IndexedZipEntry)>) -> Seq<
    (Seq<char>, IndexedZipEntry),
>
    decreases c.len(),
{
    if c.len() == 0 {
        c
    } else {
        insert_by_name(sort_by_name(c.drop_last()), c.last())
    }
}

/// The pages of an archive in reading order.
pub open spec fn page_order(entries: Seq<ArchiveEntry>) -> Seq<IndexedZipEntry> {
    sort_by_name(page_candidates(entries)).map_values(|p: (Seq<char>, IndexedZipEntry)| p.1)
}

/// The page entries of an archive, as a multiset.
pub open spec fn page_entry_multiset(entries: Seq<ArchiveEntry>) -> Multiset<IndexedZipEntry> {
    page_candidates(entries).map_values(|p: (Seq<char>, IndexedZipEntry)| p.1).to_multiset()
}

proof fn lemma_insert_at(
    s: Seq<(Seq<char>, IndexedZipEntry)>,
    x: (Seq<char>, IndexedZipEntry),
    j: int,
)
    requires
        0 <= j <= s.len(),
        forall|k: int| j <= k < s.len() ==> alphanumeric_order(#[trigger] s[k].0, x.0) > 0,
        j == 0 || alphanumeric_order(s[j - 1].0, x.0) <= 0,
    ensures
        insert_by_name(s, x) == s.take(j).push(x) + s.skip(j),
    decreases s.len(),
{
    if s.len() == j {
        assert(s.take(j) =~= s);
        assert(s.skip(j) =~= Seq::<(Seq<char>, IndexedZipEntry)>::empty());
        if s.len() == 0 {
            assert(insert_by_name(s, x) =~= seq![x]);
        }
        assert(s.push(x) + s.skip(j) =~= s.push(x));
    } else {
        let d = s.drop_last();
        assert forall|k: int| j <= k < d.len() implies alphanumeric_order(#[trigger] d[k].0, x.0)
            > 0 by {
            assert(d[k] == s[k]);
        }
        lemma_insert_at(d, x, j);
        assert(d.take(j) =~= s.take(j));
        assert((d.take(j).push(x) + d.skip(j)).push(s.last()) =~= s.take(j).push(x) + s.skip(j));
    }
}

proof fn lemma_insert_multiset(s: Seq<(Seq<char>, IndexedZipEntry)>, x: (Seq<char>, IndexedZipEntry))
    ensures
        insert_by_name(s, x).to_multiset() =~= s.to_multiset().insert(x),
    decreases s.len(),
{
    if s.len() == 0 {
        assert(seq![x] =~= Seq::<(Seq<char>, IndexedZipEntry)>::empty().push(x));
        assert(s =~= Seq::<(Seq<char>, IndexedZipEntry)>::empty());
    } else if alphanumeric_order(s.last().0, x.0) > 0 {
        lemma_insert_multiset(s.drop_last(), x);
        assert(s.drop_last().push(s.last()) =~= s);
    } else {
    }
}

proof fn lemma_sort_multiset(c: Seq<(Seq<char>, IndexedZipEntry)>)
    ensures
        sort_by_name(c).to_multiset() =~= c.to_multiset(),
    decreases c.len(),
{
    if c.len() > 0 {
        lemma_sort_multiset(c.drop_last());
        lemma_insert_multiset(sort_by_name(c.drop_last()), c.last());
        assert(c.drop_last().push(c.last()) =~= c);
    } else {
        assert(c =~= Seq::<(Seq<char>, IndexedZipEntry)>::empty());
    }
}

proof fn lemma_map_multiset(s: Seq<(Seq<char>, IndexedZipEntry)>, t: Seq<(Seq<char>, IndexedZipEntry)>)
    requires
        s.to_multiset() =~= t.to_multiset(),
    ensures
        s.map_values(|p: (Seq<char>, IndexedZipEntry)| p.1).to_multiset() =~= t.map_values(
            |p: (Seq<char>, IndexedZipEntry)| p.1,
        ).to_multiset(),
    decreases s.len(),
{
    broadcast use vstd::multiset::group_multiset_axioms;

    if s.len() == 0 {
        assert(s.to_multiset().len() == 0);
        assert(t.to_multiset().len() == t.len());
        assert(t.len() == 0);
        assert(s.map_values(|p: (Seq<char>, IndexedZipEntry)| p.1) =~= Seq::<IndexedZipEntry>::empty());
        assert(t.map_values(|p: (Seq<char>, IndexedZipEntry)| p.1) =~= Seq::<IndexedZipEntry>::empty());
    } else {
        let a = s.last();
        assert(t.to_multiset().count(a) > 0);
        assert(t.contains(a));
        let i = choose|i: int| 0 <= i < t.len() && t[i] == a;
        let t2 = t.remove(i);
        assert(s.drop_last().push(a) =~= s);
        assert(s.drop_last().to_multiset() =~= t2.to_multiset());
        lemma_map_multiset(s.drop_last(), t2);
        assert(s.map_values(|p: (Seq<char>, IndexedZipEntry)| p.1) =~= s.drop_last().map_values(
            |p: (Seq<char>, IndexedZipEntry)| p.1,
        ).push(a.1));
        assert(t.map_values(|p: (Seq<char>, IndexedZipEntry)| p.1).remove(i) =~= t2.map_values(
            |p: (Seq<char>, IndexedZipEntry)| p.1,
        ));
    }
}

/// The page index of an archive holds exactly its page entries (files that
/// are not hidden and have an image extension), each as often as the archive
/// lists it, only reordered.
pub proof fn lemma_page_order_is_permutation(entries: Seq<ArchiveEntry>)
    ensures
        page_order(entries).to_multiset() =~= page_entry_multiset(entries),
        page_order(entries).len() == page_candidates(entries).len(),
{
    lemma_sort_multiset(page_candidates(entries));
    lemma_map_multiset(sort_by_name(page_candidates(entries)), page_candidates(entries));
    assert(sort_by_name(page_candidates(entries)).len() == sort_by_name(
        page_candidates(entries),
    ).to_multiset().len());
}

/// A visible file whose extension is an image extension, in any ASCII case,
/// is a page, of the image type its extension names: `png` PNG, `jpg` and
/// `jpeg` JPEG, `webp` WEBP, `avif` AVIF, `jxl` JXL, `gif` GIF.
pub proof fn lemma_image_file_is_page(e: ArchiveEntry, ext: Seq<char>)
    requires
        !e.is_dir,
        !is_hidden_path(e.name@),
        extension_of(file_name_of(e.name@)) == Some(ext),
        ({
            let low = ascii_lowercase(ext);
            low == "png"@ || low == "jpg"@ || low == "jpeg"@ || low == "webp"@ || low == "avif"@
                || low == "jxl"@ || low == "gif"@
        }),
    ensures
        is_page_entry(e),
        ({
            let low = ascii_lowercase(ext);
            let t = naive_type_of(e.name@);
            &&& low == "png"@ ==> t == ContentType::PNG
            &&& (low == "jpg"@ || low == "jpeg"@) ==> t == ContentType::JPEG
            &&& low == "webp"@ ==> t == ContentType::WEBP
            &&& low == "avif"@ ==> t == ContentType::AVIF
            &&& low == "jxl"@ ==> t == ContentType::JXL
            &&& low == "gif"@ ==> t == ContentType::GIF
        }),
{
    lemma_image_extensions_name_image_types(ext);
}

/// Where every entry of a listing is a page, the index holds every entry
/// once: as many pages as entries, the candidates being the entries in
/// archive order, each with its position and the type its name names.
pub proof fn lemma_all_pages_listing(entries: Seq<ArchiveEntry>)
    requires
        forall|k: int| 0 <= k < entries.len() ==> is_page_entry(#[trigger] entries[k]),
    ensures
        page_order(entries).len() == entries.len(),
        page_candidates(entries).len() == entries.len(),
        forall|k: int|
            0 <= k < entries.len() ==> #[trigger] page_candidates(entries)[k] == (
                entries[k].name@,
                IndexedZipEntry { archive_index: k as usize, content_type: naive_type_of(entries[k].name@) },
            ),
    decreases entries.len(),
{
    if entries.len() > 0 {
        let d = entries.drop_last();
        assert forall|k: int| 0 <= k < d.len() implies is_page_entry(#[trigger] d[k]) by {
            assert(d[k] == entries[k]);
        }
        lemma_all_pages_listing(d);
        assert(is_page_entry(entries[entries.len() - 1]));
        assert forall|k: int| 0 <= k < entries.len() implies #[trigger] page_candidates(entries)[k] == (
            entries[k].name@,
            IndexedZipEntry { archive_index: k as usize, content_type: naive_type_of(entries[k].name@) },
        ) by {
            if k < entries.len() - 1 {
                assert(d[k] == entries[k]);
            }
        }
    }
    lemma_page_order_is_permutation(entries);
}

/// Whether the natural order answers consistently in both directions for the
/// names of `c`.
pub open spec fn order_antisymmetric_on(c: Seq<(Seq<char>, IndexedZipEntry)>) -> bool {
    forall|i: int, j: int|
        0 <= i < c.len() && 0 <= j < c.len() && alphanumeric_order(#[trigger] c[i].0, #[trigger] c[j].0)
            > 0 ==> alphanumeric_order(c[j].0, c[i].0) < 0
}

/// Whether each element of `s` does not come after the next one.
pub open spec fn sorted_by_name(s: Seq<(Seq<char>, IndexedZipEntry)>) -> bool {
    forall|k: int| 0 <= k < s.len() - 1 ==> alphanumeric_order(#[trigger] s[k].0, s[k + 1].0) <= 0
}

proof fn lemma_insert_sorted(s: Seq<(Seq<char>, IndexedZipEntry)>, x: (Seq<char>, IndexedZipEntry), c: Seq<(Seq<char>, IndexedZipEntry)>)
    requires
        sorted_by_name(s),
        order_antisymmetric_on(c),
        c.contains(x),
        forall|k: int| 0 <= k < s.len() ==> c.contains(#[trigger] s[k]),
    ensures
        sorted_by_name(insert_by_name(s, x)),
        forall|k: int| 0 <= k < insert_by_name(s, x).len() ==> c.contains(#[trigger] insert_by_name(s, x)[k]),
        insert_by_name(s, x).len() == s.len() + 1,
    decreases s.len(),
{
    if s.len() == 0 {
    } else if alphanumeric_order(s.last().0, x.0) > 0 {
        let d = s.drop_last();
        assert forall|k: int| 0 <= k < d.len() implies c.contains(#[trigger] d[k]) by {
            assert(d[k] == s[k]);
        }
        assert(sorted_by_name(d)) by {
            assert forall|k: int| 0 <= k < d.len() - 1 implies alphanumeric_order(#[trigger] d[k].0, d[k + 1].0) <= 0 by {
                assert(d[k] == s[k] && d[k + 1] == s[k + 1]);
            }
        }
        lemma_insert_sorted(d, x, c);
        let r = insert_by_name(d, x);
        let ri = choose|i: int| 0 <= i < c.len() && c[i] == r.last();
        let li = choose|i: int| 0 <= i < c.len() && c[i] == s.last();
        let xi = choose|i: int| 0 <= i < c.len() && c[i] == x;
        // the last of r is x or the last of d
        if r.last() == x {
            assert(alphanumeric_order(c[li].0, c[xi].0) > 0);
            assert(alphanumeric_order(x.0, s.last().0) < 0);
        } else {
            assert(r.last() == d.last()) by {
                if alphanumeric_order(d.last().0, x.0) > 0 {
                    assert(r == insert_by_name(d.drop_last(), x).push(d.last()));
                } else {
                    assert(r == d.push(x));
                }
            }
            assert(d.last() == s[s.len() - 2]);
        }
        let out = r.push(s.last());
        assert forall|k: int| 0 <= k < out.len() - 1 implies alphanumeric_order(#[trigger] out[k].0, out[k + 1].0) <= 0 by {
            if k < r.len() - 1 {
                assert(out[k] == r[k] && out[k + 1] == r[k + 1]);
            }
        }
    } else {
        let out = s.push(x);
        assert forall|k: int| 0 <= k < out.len() - 1 implies alphanumeric_order(#[trigger] out[k].0, out[k + 1].0) <= 0 by {
            if k < s.len() - 1 {
                assert(out[k] == s[k] && out[k + 1] == s[k + 1]);
            }
        }
    }
}

proof fn lemma_sort_sorted(c: Seq<(Seq<char>, IndexedZipEntry)>, all: Seq<(Seq<char>, IndexedZipEntry)>)
    requires
        order_antisymmetric_on(all),
        forall|k: int| 0 <= k < c.len() ==> all.contains(#[trigger] c[k]),
    ensures
        sorted_by_name(sort_by_name(c)),
        forall|k: int| 0 <= k < sort_by_name(c).len() ==> all.contains(#[trigger] sort_by_name(c)[k]),
        sort_by_name(c).len() == c.len(),
    decreases c.len(),
{
    if c.len() > 0 {
        let d = c.drop_last();
        assert forall|k: int| 0 <= k < d.len() implies all.contains(#[trigger] d[k]) by {
            assert(d[k] == c[k]);
        }
        lemma_sort_sorted(d, all);
        assert(all.contains(c[c.len() - 1]));
        lemma_insert_sorted(sort_by_name(d), c.last(), all);
    }
}

/// Where the natural order answers consistently in both directions for the
/// names of an archive's pages, each page of the index comes no later, in that
/// order, than the page after it.
pub proof fn lemma_page_order_sorted(entries: Seq<ArchiveEntry>)
    requires
        order_antisymmetric_on(page_candidates(entries)),
    ensures
        sorted_by_name(sort_by_name(page_candidates(entries))),
{
    let c = page_candidates(entries);
    assert forall|k: int| 0 <= k < c.len() implies c.contains(#[trigger] c[k]) by {}
    lemma_sort_sorted(c, c);
}


/// The names of an archive's page entries, in archive order.
fn page_names(entries: &Vec<ArchiveEntry>) -> (r: Vec<String>)
    ensures
        r@.len() == page_candidates(entries@).len(),
        forall|k: int| 0 <= k < r@.len() ==> #[trigger] r@[k]@ == page_candidates(entries@)[k].0,
{
    let mut names: Vec<String> = Vec::new();
    let mut i: usize = 0;
    while i < entries.len()
        invariant
            i <= entries.len(),
            names@.len() == page_candidates(entries@.take(i as int)).len(),
            forall|k: int|
                0 <= k < names@.len() ==> #[trigger] names@[k]@ == page_candidates(
                    entries@.take(i as int),
                )[k].0,
        decreases entries.len() - i,
    {
        let ghost pre = entries@.take(i as int);
        let ghost next = entries@.take(i + 1);
        assert(next.drop_last() =~= pre);
        assert(next.last() == entries@[i as int]);
        if is_page(&entries[i]) {
            names.push(entries[i].name.clone());
            assert forall|k: int| 0 <= k < names@.len() implies #[trigger] names@[k]@
                == page_candidates(next)[k].0 by {
                if k < names@.len() - 1 {
                    assert(page_candidates(next)[k] == page_candidates(pre)[k]);
                }
            }
        }
        i = i + 1;
    }
    assert(entries@.take(entries.len() as int) =~= entries@);
    names
}

/// Whether the natural order answers consistently in both directions for the
/// names of the archive's pages. Where it does, the page index is sorted:
/// no page comes after the next one.
pub fn page_order_is_consistent(entries: &Vec<ArchiveEntry>) -> (r: bool)
    ensures
        r == order_antisymmetric_on(page_candidates(entries@)),
        r ==> sorted_by_name(sort_by_name(page_candidates(entries@))),
{
    let ghost c = page_candidates(entries@);
    let names = page_names(entries);
    let mut i: usize = 0;
    while i < names.len()
        invariant
            i <= names@.len(),
            c == page_candidates(entries@),
            names@.len() == c.len(),
            forall|k: int| 0 <= k < names@.len() ==> #[trigger] names@[k]@ == c[k].0,
            forall|a: int, b: int|
                0 <= a < i && 0 <= b < c.len() && alphanumeric_order(#[trigger] c[a].0, #[trigger] c[b].0)
                    > 0 ==> alphanumeric_order(c[b].0, c[a].0) < 0,
        decreases names.len() - i,
    {
        let mut j: usize = 0;
        while j < names.len()
            invariant
                i < names@.len(),
                j <= names@.len(),
                c == page_candidates(entries@),
                names@.len() == c.len(),
                forall|k: int| 0 <= k < names@.len() ==> #[trigger] names@[k]@ == c[k].0,
                forall|a: int, b: int|
                    0 <= a < i && 0 <= b < c.len() && alphanumeric_order(#[trigger] c[a].0, #[trigger] c[b].0)
                        > 0 ==> alphanumeric_order(c[b].0, c[a].0) < 0,
                forall|b: int|
                    0 <= b < j && alphanumeric_order(c[i as int].0, #[trigger] c[b].0) > 0
                        ==> alphanumeric_order(c[b].0, c[i as int].0) < 0,
            decreases names.len() - j,
        {
            let ghost ni = names@[i as int]@;
            let ghost nj = names@[j as int]@;
            assert(ni == c[i as int].0 && nj == c[j as int].0);
            let forward = compare_names(names[i].as_str(), names[j].as_str());
            let backward = compare_names(names[j].as_str(), names[i].as_str());
            if forward > 0 && backward >= 0 {
                assert(alphanumeric_order(c[i as int].0, c[j as int].0) > 0);
                assert(!(alphanumeric_order(c[j as int].0, c[i as int].0) < 0));
                assert(!order_antisymmetric_on(c));
                return false;
            }
            j = j + 1;
        }
        i = i + 1;
    }
    proof {
        lemma_page_order_sorted(entries@);
    }
    true
}

/// A page entry waiting to be put in order, with its name.
struct Candidate {
    name: String,
    entry: IndexedZipEntry,
}

spec fn candidate_view(c: Candidate) -> (Seq<char>, IndexedZipEntry) {
    (c.name@, c.entry)
}

spec fn candidates_view(v: Seq<Candidate>) -> Seq<(Seq<char>, IndexedZipEntry)> {
    v.map_values(|c: Candidate| candidate_view(c))
}

/// Whether an archive entry is a page.
pub fn is_page(entry: &ArchiveEntry) -> (r: bool)
    ensures
        r == is_page_entry(*entry),
{
    !entry.is_dir && !is_hidden_file(entry.name.as_str()) && naive_content_type(
        entry.name.as_str(),
    ).is_image()
}

/// Puts `c` into the sorted `sorted`, after the last element that does not
/// come after it.
fn insert_candidate(sorted: &mut Vec<Candidate>, c: Candidate)
    ensures
        candidates_view(final(sorted)@) == insert_by_name(candidates_view(old(sorted)@), candidate_view(c)),
{
    let ghost s = candidates_view(sorted@);
    let mut j: usize = sorted.len();
    while j > 0 && compare_names(sorted[j - 1].name.as_str(), c.name.as_str()) > 0
        invariant
            j <= sorted.len(),
            s == candidates_view(sorted@),
            forall|k: int| j <= k < s.len() ==> alphanumeric_order(#[trigger] s[k].0, c.name@) > 0,
        decreases j,
    {
        j = j - 1;
    }
    proof {
        lemma_insert_at(s, candidate_view(c), j as int);
    }
    let ghost cv = candidate_view(c);
    sorted.insert(j, c);
    assert(candidates_view(sorted@) =~= s.take(j as int).push(cv) + s.skip(j as int));
}

/// The page index of an archive listing: its page entries sorted by the
/// natural order of their names, stably. An archive with no entry at all is
/// refused.
pub fn build_page_index(entries: &Vec<ArchiveEntry>) -> (r: Result<ZipPageIndex, FileError>)
    ensures
        entries.len() == 0 ==> r == Err::<ZipPageIndex, FileError>(FileError::ArchiveEmptyError),
        entries.len() > 0 ==> r is Ok && r->Ok_0.entries@ == page_order(entries@),
{
    if entries.len() == 0 {
        return Err(FileError::ArchiveEmptyError);
    }
    let mut sorted: Vec<Candidate> = Vec::new();
    let mut i: usize = 0;
    while i < entries.len()
        invariant
            i <= entries.len(),
            candidates_view(sorted@) == sort_by_name(page_candidates(entries@.take(i as int))),
        decreases entries.len() - i,
    {
        let ghost pre = entries@.take(i as int);
        let ghost next = entries@.take(i + 1);
        assert(next.drop_last() =~= pre);
        assert(next.last() == entries@[i as int]);
        let e = &entries[i];
        if is_page(e) {
            let ghost item = (
                e.name@,
                IndexedZipEntry { archive_index: i, content_type: naive_type_of(e.name@) },
            );
            assert(page_candidates(next) == page_candidates(pre).push(item));
            assert(page_candidates(pre).push(item).drop_last() =~= page_candidates(pre));
            let c = Candidate {
                name: e.name.clone(),
                entry: IndexedZipEntry {
                    archive_index: i,
                    content_type: naive_content_type(e.name.as_str()),
                },
            };
            insert_candidate(&mut sorted, c);
        } else {
            assert(page_candidates(next) == page_candidates(pre));
        }
        i = i + 1;
    }
    assert(entries@.take(entries.len() as int) =~= entries@);
    let mut out: Vec<IndexedZipEntry> = Vec::new();
    let mut k: usize = 0;
    while k < sorted.len()
        invariant
            k <= sorted.len(),
            candidates_view(sorted@) == sort_by_name(page_candidates(entries@)),
            out@ == candidates_view(sorted@).take(k as int).map_values(
                |p: (Seq<char>, IndexedZipEntry)| p.1,
            ),
        decreases sorted.len() - k,
    {
        out.push(sorted[k].entry);
        assert(candidates_view(sorted@).take(k + 1).map_values(
            |p: (Seq<char>, IndexedZipEntry)| p.1,
        ) =~= candidates_view(sorted@).take(k as int).map_values(
            |p: (Seq<char>, IndexedZipEntry)| p.1,
        ).push(sorted@[k as int].entry));
        k = k + 1;
    }
    assert(candidates_view(sorted@).take(sorted.len() as int) =~= candidates_view(sorted@));
    Ok(ZipPageIndex { entries: out })
}

/// Whether an archive entry is a visible file: not a directory, not hidden.
pub open spec fn is_listed_file(e: ArchiveEntry) -> bool {
    !e.is_dir && !is_hidden_path(e.name@)
}

/// Whether an archive entry is the `ComicInfo.xml` metadata file.
pub open spec fn is_comic_info(e: ArchiveEntry) -> bool {
    is_listed_file(e) && file_name_of(e.name@) == "ComicInfo.xml"@
}

/// The number of pages the processor counts: visible image files, leaving
/// out the metadata file when metadata is processed.
pub open spec fn counted_pages(entries: Seq<ArchiveEntry>, process_metadata: bool) -> nat
    decreases entries.len(),
{
    if entries.len() == 0 {
        0
    } else {
        let e = entries.last();
        let prev = counted_pages(entries.drop_last(), process_metadata);
        if is_listed_file(e) && !(is_comic_info(e) && process_metadata) && is_image_type(
            naive_type_of(e.name@),
        ) {
            prev + 1
        } else {
            prev
        }
    }
}

/// The position of the last metadata file of the listing, if any.
pub open spec fn last_comic_info(entries: Seq<ArchiveEntry>) -> Option<usize>
    decreases entries.len(),
{
    if entries.len() == 0 {
        None
    } else if is_comic_info(entries.last()) {
        Some((entries.len() - 1) as usize)
    } else {
        last_comic_info(entries.drop_last())
    }
}

/// The positions of all metadata files of the listing, in listing order.
pub open spec fn comic_info_positions(entries: Seq<ArchiveEntry>) -> Seq<usize>
    decreases entries.len(),
{
    if entries.len() == 0 {
        Seq::empty()
    } else if is_comic_info(entries.last()) {
        comic_info_positions(entries.drop_last()).push((entries.len() - 1) as usize)
    } else {
        comic_info_positions(entries.drop_last())
    }
}

/// The position of the first metadata file of the listing, if any.
pub open spec fn first_comic_info(entries: Seq<ArchiveEntry>) -> Option<usize> {
    if exists|i: int| 0 <= i < entries.len() && is_comic_info(#[trigger] entries[i]) {
        Some(
            (choose|i: int|
                0 <= i < entries.len() && is_comic_info(#[trigger] entries[i]) && forall|j: int|
                    0 <= j < i ==> !is_comic_info(#[trigger] entries[j])) as usize,
        )
    } else {
        None
    }
}

/// What processing an archive finds: its page count, which entries are read
/// as metadata, in order, and which entry's contents become its metadata (the
/// last one read).
#[derive(Debug)]
pub struct ArchiveScan {
    pub pages: i32,
    pub metadata_reads: Vec<usize>,
    pub metadata_entry: Option<usize>,
}

/// The sum of the sizes that could be read.
pub open spec fn sum_sizes(sizes: Seq<Option<u64>>) -> int
    decreases sizes.len(),
{
    if sizes.len() == 0 {
        0
    } else {
        sum_sizes(sizes.drop_last()) + match sizes.last() {
            Some(n) => n as int,
            None => 0,
        }
    }
}

/// The sizes that the sample is made of: those of the first six entries.
pub open spec fn sample_part(sizes: Seq<Option<u64>>) -> Seq<Option<u64>> {
    if sizes.len() <= 6 {
        sizes
    } else {
        sizes.take(6)
    }
}

/// The page a one-based page number names, if there is one.
pub open spec fn page_lookup(index: Seq<IndexedZipEntry>, page: i32) -> Result<IndexedZipEntry, FileError> {
    if 1 <= page && page <= index.len() {
        Ok(index[page - 1])
    } else {
        Err(FileError::NoImageError)
    }
}

/// The content types of the requested pages that exist, keyed by page number.
pub open spec fn content_type_map(index: Seq<IndexedZipEntry>, pages: Seq<i32>) -> Map<i32, ContentType>
    decreases pages.len(),
{
    if pages.len() == 0 {
        Map::empty()
    } else {
        let m = content_type_map(index, pages.drop_last());
        let p = pages.last();
        if 1 <= p && p <= index.len() {
            m.insert(p, index[p - 1].content_type)
        } else {
            m
        }
    }
}

/// Page numbers count from one through the index: page `p` is element
/// `p - 1` of the index, the next number gives the next page, and a number
/// outside one to the page count has no page.
pub proof fn lemma_page_numbers_follow_the_index(index: Seq<IndexedZipEntry>, page: i32)
    ensures
        1 <= page <= index.len() ==> page_lookup(index, page) == Ok::<IndexedZipEntry, FileError>(
            index[page - 1],
        ),
        1 <= page < index.len() && page < i32::MAX ==> page_lookup(index, (page + 1) as i32) == Ok::<
            IndexedZipEntry,
            FileError,
        >(index[page as int]),
        (page < 1 || page > index.len()) ==> page_lookup(index, page) == Err::<
            IndexedZipEntry,
            FileError,
        >(FileError::NoImageError),
{
}

/// Reading the pages numbered one to the page count, in turn, gives the
/// whole index, in order.
pub proof fn lemma_reading_every_page_gives_the_index(index: Seq<IndexedZipEntry>)
    requires
        index.len() <= i32::MAX,
    ensures
        Seq::new(index.len(), |k: int| page_lookup(index, (k + 1) as i32)) == index.map_values(
            |e: IndexedZipEntry| Ok::<IndexedZipEntry, FileError>(e),
        ),
{
    assert(Seq::new(index.len(), |k: int| page_lookup(index, (k + 1) as i32)) =~= index.map_values(
        |e: IndexedZipEntry| Ok::<IndexedZipEntry, FileError>(e),
    ));
}

/// The page behind a one-based page number.
pub fn page_entry(index: &ZipPageIndex, page: i32) -> (r: Result<IndexedZipEntry, FileError>)
    ensures
        r == page_lookup(index.entries@, page),
{
    if page < 1 {
        return Err(FileError::NoImageError);
    }
    let i: usize = (page - 1) as usize;
    if i < index.entries.len() {
        Ok(index.entries[i])
    } else {
        Err(FileError::NoImageError)
    }
}

/// The number of pages, as the 32-bit count the media records keep
/// (truncated as `as` truncates).
pub fn page_count(index: &ZipPageIndex) -> (r: i32)
    ensures
        r == index.entries@.len() as i32,
{
    index.entries.len() as i32
}

/// The content types of the requested pages that exist.
pub fn page_content_types(index: &ZipPageIndex, pages: Vec<i32>) -> (r: HashMap<i32, ContentType>)
    ensures
        r@ == content_type_map(index.entries@, pages@),
{
    broadcast use vstd::std_specs::hash::group_hash_axioms;

    let mut m: HashMap<i32, ContentType> = HashMap::new();
    let mut i: usize = 0;
    while i < pages.len()
        invariant
            i <= pages.len(),
            m@ == content_type_map(index.entries@, pages@.take(i as int)),
        decreases pages.len() - i,
    {
        let p = pages[i];
        assert(pages@.take(i + 1).drop_last() =~= pages@.take(i as int));
        assert(pages@.take(i + 1).last() == p);
        if p >= 1 && ((p - 1) as usize) < index.entries.len() {
            let e = index.entries[(p - 1) as usize];
            m.insert(p, e.content_type);
        }
        i = i + 1;
    }
    assert(pages@.take(pages.len() as int) =~= pages@);
    m
}

/// Whether an archive entry is the metadata file.
fn comic_info(entry: &ArchiveEntry) -> (r: bool)
    ensures
        r == is_comic_info(*entry),
{
    if entry.is_dir || is_hidden_file(entry.name.as_str()) {
        return false;
    }
    let n = file_name(entry.name.as_str());
    let s = crate::text::string_from_chars(&n);
    same_text(s.as_str(), "ComicInfo.xml")
}

/// The processor of ZIP and CBZ archives.
pub struct ZipProcessor;

impl ZipProcessor {
    /// The size of the sample that fingerprints an archive: the sizes of its
    /// first six entries, skipping those that could not be read.
    pub fn get_sample_size(sizes: &Vec<Option<u64>>) -> (r: u64)
        requires
            sum_sizes(sample_part(sizes@)) <= u64::MAX,
        ensures
            r == sum_sizes(sample_part(sizes@)),
    {
        let mut total: u64 = 0;
        let mut i: usize = 0;
        let n: usize = if sizes.len() <= 6 { sizes.len() } else { 6 };
        assert(sample_part(sizes@) =~= sizes@.take(n as int));
        while i < n
            invariant
                n <= sizes.len(),
                i <= n,
                sample_part(sizes@) == sizes@.take(n as int),
                total == sum_sizes(sizes@.take(i as int)),
                sum_sizes(sizes@.take(n as int)) <= u64::MAX,
            decreases n - i,
        {
            proof {
                lemma_sum_sizes_monotone(sizes@.take(n as int), i + 1);
                assert(sizes@.take(n as int).take(i + 1) =~= sizes@.take(i + 1));
                assert(sizes@.take(i + 1).drop_last() =~= sizes@.take(i as int));
            }
            match sizes[i] {
                Some(s) => {
                    total = total + s;
                },
                None => {},
            }
            i = i + 1;
        }
        total
    }

    /// Which entry holds the archive's metadata: the first visible
    /// `ComicInfo.xml`.
    pub fn process_metadata(entries: &Vec<ArchiveEntry>) -> (r: Option<usize>)
        ensures
            r == first_comic_info(entries@),
    {
        let mut i: usize = 0;
        while i < entries.len()
            invariant
                i <= entries.len(),
                forall|j: int| 0 <= j < i ==> !is_comic_info(#[trigger] entries@[j]),
            decreases entries.len() - i,
        {
            if comic_info(&entries[i]) {
                let ghost k = choose|k: int|
                    0 <= k < entries@.len() && is_comic_info(#[trigger] entries@[k]) && forall|j: int|
                        0 <= j < k ==> !is_comic_info(#[trigger] entries@[j]);
                assert(is_comic_info(entries@[i as int]));
                assert(k == i) by {
                    if k < i {
                    } else if k > i {
                        assert(!is_comic_info(entries@[i as int]));
                    }
                }
                return Some(i);
            }
            i = i + 1;
        }
        None
    }

    /// What processing an archive finds: the number of pages (visible
    /// images, not counting the metadata file when metadata is processed),
    /// and, when metadata is processed, every visible `ComicInfo.xml`, each of
    /// which is read in turn, the last one giving the metadata.
    pub fn process(entries: &Vec<ArchiveEntry>, process_metadata: bool) -> (r: ArchiveScan)
        requires
            counted_pages(entries@, process_metadata) <= i32::MAX,
        ensures
            r.pages == counted_pages(entries@, process_metadata),
            r.metadata_entry == (if process_metadata {
                last_comic_info(entries@)
            } else {
                None
            }),
            r.metadata_reads@ == (if process_metadata {
                comic_info_positions(entries@)
            } else {
                Seq::<usize>::empty()
            }),
    {
        let mut pages: i32 = 0;
        let mut metadata: Option<usize> = None;
        let mut reads: Vec<usize> = Vec::new();
        let mut i: usize = 0;
        while i < entries.len()
            invariant
                i <= entries.len(),
                counted_pages(entries@, process_metadata) <= i32::MAX,
                pages == counted_pages(entries@.take(i as int), process_metadata),
                metadata == (if process_metadata {
                    last_comic_info(entries@.take(i as int))
                } else {
                    None
                }),
                reads@ == (if process_metadata {
                    comic_info_positions(entries@.take(i as int))
                } else {
                    Seq::<usize>::empty()
                }),
            decreases entries.len() - i,
        {
            let ghost next = entries@.take(i + 1);
            assert(next.drop_last() =~= entries@.take(i as int));
            assert(next.last() == entries@[i as int]);
            proof {
                lemma_counted_pages_prefix(entries@, process_metadata, i + 1);
            }
            let e = &entries[i];
            if !e.is_dir && !is_hidden_file(e.name.as_str()) {
                let is_info = comic_info(e);
                if is_info && process_metadata {
                    metadata = Some(i);
                    reads.push(i);
                } else if naive_content_type(e.name.as_str()).is_image() {
                    pages = pages + 1;
                }
            }
            i = i + 1;
        }
        assert(entries@.take(entries.len() as int) =~= entries@);
        ArchiveScan { pages, metadata_reads: reads, metadata_entry: metadata }
    }

    /// Whether the page count of `process` fits the 32-bit count the media
    /// records keep, so that `process` can count the pages.
    pub fn process_fits(entries: &Vec<ArchiveEntry>, process_metadata: bool) -> (r: bool)
        ensures
            r == (counted_pages(entries@, process_metadata) <= i32::MAX),
    {
        let mut pages: usize = 0;
        let mut i: usize = 0;
        while i < entries.len()
            invariant
                i <= entries.len(),
                pages <= i,
                pages == counted_pages(entries@.take(i as int), process_metadata),
            decreases entries.len() - i,
        {
            let ghost next = entries@.take(i + 1);
            assert(next.drop_last() =~= entries@.take(i as int));
            assert(next.last() == entries@[i as int]);
            let e = &entries[i];
            if !e.is_dir && !is_hidden_file(e.name.as_str()) {
                let is_info = comic_info(e);
                if !(is_info && process_metadata) && naive_content_type(e.name.as_str()).is_image() {
                    pages = pages + 1;
                }
            }
            i = i + 1;
        }
        assert(entries@.take(entries.len() as int) =~= entries@);
        pages <= 2147483647
    }

    /// The page behind a one-based page number of an archive listing.
    pub fn get_page(entries: &Vec<ArchiveEntry>, page: i32) -> (r: Result<IndexedZipEntry, FileError>)
        ensures
            entries.len() == 0 ==> r == Err::<IndexedZipEntry, FileError>(FileError::ArchiveEmptyError),
            entries.len() > 0 ==> r == page_lookup(page_order(entries@), page),
    {
        let index = build_page_index(entries)?;
        page_entry(&index, page)
    }

    /// The number of pages of an archive listing.
    pub fn get_page_count(entries: &Vec<ArchiveEntry>) -> (r: Result<i32, FileError>)
        ensures
            entries.len() == 0 ==> r == Err::<i32, FileError>(FileError::ArchiveEmptyError),
            entries.len() > 0 ==> r == Ok::<i32, FileError>(page_order(entries@).len() as i32),
    {
        let index = build_page_index(entries)?;
        Ok(page_count(&index))
    }

    /// The content types of the requested pages of an archive listing.
    pub fn get_page_content_types(entries: &Vec<ArchiveEntry>, pages: Vec<i32>) -> (r: Result<
        HashMap<i32, ContentType>,
        FileError,
    >)
        ensures
            entries.len() == 0 ==> r is Err && r->Err_0 == FileError::ArchiveEmptyError,
            entries.len() > 0 ==> r is Ok && r->Ok_0@ == content_type_map(page_order(entries@), pages@),
    {
        let index = build_page_index(entries)?;
        Ok(page_content_types(&index, pages))
    }
}

proof fn lemma_counted_pages_prefix(entries: Seq<ArchiveEntry>, process_metadata: bool, k: int)
    requires
        0 <= k <= entries.len(),
    ensures
        counted_pages(entries.take(k), process_metadata) <= counted_pages(entries, process_metadata),
    decreases entries.len(),
{
    if k == entries.len() {
        assert(entries.take(k) =~= entries);
    } else {
        lemma_counted_pages_prefix(entries.drop_last(), process_metadata, k);
        assert(entries.drop_last().take(k) =~= entries.take(k));
    }
}

proof fn lemma_sum_sizes_monotone(s: Seq<Option<u64>>, k: int)
    requires
        0 <= k <= s.len(),
    ensures
        0 <= sum_sizes(s.take(k)) <= sum_sizes(s),
    decreases s.len(),
{
    if s.len() == 0 {
        assert(s.take(k) =~= s);
    } else if k == s.len() {
        assert(s.take(k) =~= s);
        lemma_sum_sizes_monotone(s.drop_last(), 0);
        assert(s.drop_last().take(0) =~= s.take(0));
    } else {
        lemma_sum_sizes_monotone(s.drop_last(), k);
        assert(s.drop_last().take(k) =~= s.take(k));
    }
}

/// The processor's page count is the length of the page index: the pages it
/// counts are exactly the page entries of the listing.
pub proof fn lemma_counted_pages_match_index(entries: Seq<ArchiveEntry>, process_metadata: bool)
    ensures
        counted_pages(entries, process_metadata) == page_order(entries).len(),
    decreases entries.len(),
{
    lemma_page_order_is_permutation(entries);
    lemma_counted_is_candidates(entries, process_metadata);
}

proof fn lemma_counted_is_candidates(entries: Seq<ArchiveEntry>, process_metadata: bool)
    ensures
        counted_pages(entries, process_metadata) == page_candidates(entries).len(),
    decreases entries.len(),
{
    if entries.len() > 0 {
        lemma_counted_is_candidates(entries.drop_last(), process_metadata);
        let e = entries.last();
        if is_comic_info(e) {
            reveal_strlit("ComicInfo.xml");
            lemma_comic_info_not_image(e.name@);
        }
    }
}

proof fn lemma_comic_info_not_image(path: Seq<char>)
    requires
        file_name_of(path) == "ComicInfo.xml"@,
    ensures
        !is_image_type(naive_type_of(path)),
{
    reveal_strlit("ComicInfo.xml");
    reveal_strlit("xml");
    reveal_strlit("png");
    reveal_strlit("jpg");
    reveal_strlit("jpeg");
    reveal_strlit("webp");
    reveal_strlit("avif");
    reveal_strlit("jxl");
    reveal_strlit("gif");
    let n = file_name_of(path);
    let a = n.take(10);
    let b = n.take(11);
    let c = n.take(12);
    assert(a.last() == '.');
    assert(extension_of(a) == Some(Seq::<char>::empty()));
    assert(b.drop_last() =~= a);
    assert(extension_of(b) == Some(Seq::<char>::empty().push('x')));
    assert(c.drop_last() =~= b);
    assert(extension_of(c) == Some(Seq::<char>::empty().push('x').push('m')));
    assert(n.drop_last() =~= c);
    assert(extension_of(n) == Some(Seq::<char>::empty().push('x').push('m').push('l')));
    assert(crate::text::ascii_lowercase(Seq::<char>::empty().push('x').push('m').push('l'))
        =~= "xml"@);
    assert("xml"@ != "png"@) by { assert("xml"@[0] != "png"@[0]); }
    assert("xml"@ != "jpg"@) by { assert("xml"@[0] != "jpg"@[0]); }
    assert("xml"@ != "jpeg"@) by { assert("xml"@.len() != "jpeg"@.len()); }
    assert("xml"@ != "webp"@) by { assert("xml"@.len() != "webp"@.len()); }
    assert("xml"@ != "avif"@) by { assert("xml"@.len() != "avif"@.len()); }
    assert("xml"@ != "jxl"@) by { assert("xml"@[0] != "jxl"@[0]); }
    assert("xml"@ != "gif"@) by { assert("xml"@[0] != "gif"@[0]); }
    assert(type_of_extension("xml"@) == ContentType::XML);
}

} // verus!
