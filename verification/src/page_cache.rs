//! The cache of page indexes, keyed by archive path. An index is reused only
//! while the archive's signature (modification time and size) is unchanged;
//! the first caller for a new signature builds it, later callers wait for it.
//! Each build is an entry of its own, named by its ticket: a build that a
//! newer version of the archive replaced still reaches the callers waiting on
//! it. A failed build leaves its path, so that the next caller builds again;
//! nothing is ever published under it, so the callers already waiting on it
//! find it still building.

use vstd::prelude::*;
use crate::text::same_text;
use crate::zip_pages::{IndexedZipEntry, ZipPageIndex};

verus! {

/// What identifies a version of an archive file.
#[derive(Debug, Clone, Copy, PartialEq, Eq, Structural)]
pub struct ArchiveSignature {
    pub modified_at_unix_nanos: Option<u128>,
    pub size_bytes: u64,
}

/// One build: the archive path, the signature it is built for, the pages once
/// built, and the number of callers waiting on it.
pub type CacheEntry = (Seq<char>, ArchiveSignature, Option<Seq<IndexedZipEntry>>, u64);

/// What the cache holds: the ticket of each path's current build, every
/// build still needed by ticket, and the ticket the next build will get.
pub ghost struct CacheView {
    pub current: Map<Seq<char>, u64>,
    pub entries: Map<u64, CacheEntry>,
    pub next_ticket: u64,
}

/// What a caller of `claim` is to do.
#[derive(Debug, Clone, Copy, PartialEq, Eq, Structural)]
pub enum CacheDecision {
    /// Build the index, then `publish` or `abandon` it under this ticket.
    Build(u64),
    /// Another caller builds the index under this ticket: `poll` it, and
    /// `leave` it once done.
    Wait(u64),
}

/// What `poll` finds.
pub enum PollResult {
    /// The index is built.
    Ready(ZipPageIndex),
    /// The index is not built: it is still being built, or its build failed
    /// or was dropped, and then no index will come.
    Building,
}

/// The build a caller asking for `path` at `signature` can join, if any.
pub open spec fn joinable(v: CacheView, path: Seq<char>, signature: ArchiveSignature) -> Option<u64> {
    match v.current.get(path) {
        Some(t) => if v.entries.contains_key(t) && v.entries[t].1 == signature {
            Some(t)
        } else {
            None
        },
        None => None,
    }
}

/// The answer `claim` gives: join the current build of the same version,
/// else build anew.
pub open spec fn claim_decision(v: CacheView, path: Seq<char>, signature: ArchiveSignature) -> CacheDecision {
    match joinable(v, path, signature) {
        Some(t) => CacheDecision::Wait(t),
        None => CacheDecision::Build(v.next_ticket),
    }
}

/// Whether `claim` can count the caller: a new build needs a free ticket, a
/// join room in the waiter count.
pub open spec fn can_claim_spec(v: CacheView, path: Seq<char>, signature: ArchiveSignature) -> bool {
    match joinable(v, path, signature) {
        Some(t) => v.entries[t].3 < u64::MAX,
        None => v.next_ticket < u64::MAX,
    }
}

/// The entries without build `t` where nobody needs it any more: built, not
/// current, no waiter.
pub open spec fn retire(entries: Map<u64, CacheEntry>, t: u64) -> Map<u64, CacheEntry> {
    if entries.contains_key(t) && entries[t].2 is Some && entries[t].3 == 0 {
        entries.remove(t)
    } else {
        entries
    }
}

/// The cache after `claim`.
pub open spec fn after_claim(v: CacheView, path: Seq<char>, signature: ArchiveSignature) -> CacheView {
    match joinable(v, path, signature) {
        Some(t) => {
            let e = v.entries[t];
            CacheView { entries: v.entries.insert(t, (e.0, e.1, e.2, (e.3 + 1) as u64)), ..v }
        },
        None => {
            let kept = match v.current.get(path) {
                Some(old) => retire(v.entries, old),
                None => v.entries,
            };
            CacheView {
                current: v.current.insert(path, v.next_ticket),
                entries: kept.insert(v.next_ticket, (path, signature, None, 0)),
                next_ticket: (v.next_ticket + 1) as u64,
            }
        },
    }
}

/// Whether build `t` is the current build of its path.
pub open spec fn is_current(v: CacheView, t: u64) -> bool {
    v.entries.contains_key(t) && v.current.get(v.entries[t].0) == Some(t)
}

/// The cache after `publish`: the build gets its pages, or is dropped where
/// nobody can ask for them any more.
pub open spec fn after_publish(v: CacheView, t: u64, pages: Seq<IndexedZipEntry>) -> CacheView {
    if v.entries.contains_key(t) {
        let e = v.entries[t];
        if is_current(v, t) || e.3 > 0 {
            CacheView { entries: v.entries.insert(t, (e.0, e.1, Some(pages), e.3)), ..v }
        } else {
            CacheView { entries: v.entries.remove(t), ..v }
        }
    } else {
        v
    }
}

/// The cache after `abandon`: the build's path has no current build if it
/// was that one, and the build is dropped unless callers wait on it, who keep
/// it as it is.
pub open spec fn after_abandon(v: CacheView, t: u64) -> CacheView {
    if v.entries.contains_key(t) {
        let e = v.entries[t];
        CacheView {
            current: if is_current(v, t) {
                v.current.remove(e.0)
            } else {
                v.current
            },
            entries: if e.3 > 0 {
                v.entries
            } else {
                v.entries.remove(t)
            },
            ..v
        }
    } else {
        v
    }
}

/// The cache after a waiter of build `t` leaves it.
pub open spec fn after_leave(v: CacheView, t: u64) -> CacheView {
    if v.entries.contains_key(t) {
        let e = v.entries[t];
        let w: u64 = if e.3 > 0 {
            (e.3 - 1) as u64
        } else {
            0
        };
        if w == 0 && !is_current(v, t) && e.2 is Some {
            CacheView { entries: v.entries.remove(t), ..v }
        } else {
            CacheView { entries: v.entries.insert(t, (e.0, e.1, e.2, w)), ..v }
        }
    } else {
        v
    }
}

/// What `poll` finds for build `t`: `None` once dropped, `Some(None)` while
/// it is built, `Some(Some(pages))` once built.
pub open spec fn poll_view(v: CacheView, t: u64) -> Option<Option<Seq<IndexedZipEntry>>> {
    match v.entries.get(t) {
        Some(e) => Some(e.2),
        None => None,
    }
}

/// The cache's consistency: each current build is held, under its own path,
/// and every ticket is below the next one.
pub open spec fn view_wf(v: CacheView) -> bool {
    &&& forall|p: Seq<char>| #[trigger] v.current.contains_key(p) ==> v.entries.contains_key(
        v.current[p],
    ) && v.entries[v.current[p]].0 == p
    &&& forall|t: u64| #[trigger] v.entries.contains_key(t) ==> t < v.next_ticket
}

/// Once the caller told to build a version publishes its index, a caller
/// asking for the same version joins that build and finds exactly that index.
pub proof fn lemma_published_index_is_served(
    v: CacheView,
    path: Seq<char>,
    signature: ArchiveSignature,
    pages: Seq<IndexedZipEntry>,
)
    requires
        view_wf(v),
        claim_decision(v, path, signature) == CacheDecision::Build(v.next_ticket),
        v.next_ticket < u64::MAX,
    ensures
        ({
            let built = after_publish(after_claim(v, path, signature), v.next_ticket, pages);
            &&& claim_decision(built, path, signature) == CacheDecision::Wait(v.next_ticket)
            &&& poll_view(built, v.next_ticket) == Some(Some(pages))
        }),
{
    let c = after_claim(v, path, signature);
    assert(is_current(c, v.next_ticket));
}

/// A caller waiting on a build gets that build's index, even where a newer
/// version of the archive replaced the build in the meantime.
pub proof fn lemma_replaced_build_reaches_its_waiters(
    v: CacheView,
    path: Seq<char>,
    old_signature: ArchiveSignature,
    new_signature: ArchiveSignature,
    pages: Seq<IndexedZipEntry>,
)
    requires
        view_wf(v),
        claim_decision(v, path, old_signature) == CacheDecision::Build(v.next_ticket),
        v.next_ticket < u64::MAX - 1,
        old_signature != new_signature,
    ensures
        ({
            let t = v.next_ticket;
            let built = after_claim(v, path, old_signature);
            let joined = after_claim(built, path, old_signature);
            let replaced = after_claim(joined, path, new_signature);
            &&& claim_decision(built, path, old_signature) == CacheDecision::Wait(t)
            &&& claim_decision(joined, path, new_signature) == CacheDecision::Build(
                (t + 1) as u64,
            )
            &&& poll_view(after_publish(replaced, t, pages), t) == Some(Some(pages))
        }),
{
    let t = v.next_ticket;
    let built = after_claim(v, path, old_signature);
    let joined = after_claim(built, path, old_signature);
    assert(joinable(built, path, old_signature) == Some(t));
    assert(joined.entries[t].3 == 1);
    assert(joinable(joined, path, new_signature).is_none());
    let replaced = after_claim(joined, path, new_signature);
    assert(retire(joined.entries, t) == joined.entries);
    assert(replaced.entries.contains_key(t));
    assert(replaced.entries[t].3 == 1);
}

/// A build made for one version of an archive is never handed out for
/// another version: asking with a different signature is answered with a new
/// build.
pub proof fn lemma_changed_archive_is_rebuilt(
    v: CacheView,
    path: Seq<char>,
    old_signature: ArchiveSignature,
    new_signature: ArchiveSignature,
)
    requires
        v.current.contains_key(path),
        v.entries.contains_key(v.current[path]),
        v.entries[v.current[path]].1 == old_signature,
        old_signature != new_signature,
    ensures
        claim_decision(v, path, new_signature) == CacheDecision::Build(v.next_ticket),
        after_claim(v, path, new_signature).current[path] == v.next_ticket,
        after_claim(v, path, new_signature).entries[v.next_ticket] == (
            path,
            new_signature,
            None::<Seq<IndexedZipEntry>>,
            0u64,
        ),
{
}

/// After a failed build that nobody waits on is abandoned, it is gone, its
/// path has no current build, and the next caller for the same version builds
/// again.
pub proof fn lemma_abandoned_build_is_forgotten(
    v: CacheView,
    path: Seq<char>,
    signature: ArchiveSignature,
)
    requires
        view_wf(v),
        claim_decision(v, path, signature) == CacheDecision::Build(v.next_ticket),
        v.next_ticket < u64::MAX,
    ensures
        ({
            let t = v.next_ticket;
            let left = after_abandon(after_claim(v, path, signature), t);
            &&& !left.current.contains_key(path)
            &&& poll_view(left, t) == None::<Option<Seq<IndexedZipEntry>>>
            &&& claim_decision(left, path, signature) == CacheDecision::Build(left.next_ticket)
        }),
{
    let c = after_claim(v, path, signature);
    assert(is_current(c, v.next_ticket));
}


/// One call on the cache, as a history records it.
pub ghost enum CacheOp {
    Claim(Seq<char>, ArchiveSignature),
    Publish(u64, Seq<IndexedZipEntry>),
    Abandon(u64),
    Leave(u64),
}

/// The empty cache that `PageIndexCache::new` gives.
pub open spec fn empty_cache() -> CacheView {
    CacheView { current: Map::empty(), entries: Map::empty(), next_ticket: 0 }
}

/// The cache after one call. A claim that `can_claim` refuses cannot be
/// made, and changes nothing.
pub open spec fn apply(v: CacheView, op: CacheOp) -> CacheView {
    match op {
        CacheOp::Claim(path, signature) => if can_claim_spec(v, path, signature) {
            after_claim(v, path, signature)
        } else {
            v
        },
        CacheOp::Publish(t, pages) => after_publish(v, t, pages),
        CacheOp::Abandon(t) => after_abandon(v, t),
        CacheOp::Leave(t) => after_leave(v, t),
    }
}

/// The cache after a history of calls, in order.
pub open spec fn run(v: CacheView, ops: Seq<CacheOp>) -> CacheView
    decreases ops.len(),
{
    if ops.len() == 0 {
        v
    } else {
        apply(run(v, ops.drop_last()), ops.last())
    }
}

/// The pages last published for build `t` in a history.
pub open spec fn last_publish(ops: Seq<CacheOp>, t: u64) -> Option<Seq<IndexedZipEntry>>
    decreases ops.len(),
{
    if ops.len() == 0 {
        None
    } else {
        match ops.last() {
            CacheOp::Publish(t2, pages) => if t2 == t {
                Some(pages)
            } else {
                last_publish(ops.drop_last(), t)
            },
            _ => last_publish(ops.drop_last(), t),
        }
    }
}

proof fn lemma_apply_wf(v: CacheView, op: CacheOp)
    requires
        view_wf(v),
    ensures
        view_wf(apply(v, op)),
{
    let w = apply(v, op);
    match op {
        CacheOp::Claim(path, signature) => {
            if can_claim_spec(v, path, signature) {
                match joinable(v, path, signature) {
                    Some(t) => {},
                    None => {
                        let kept = match v.current.get(path) {
                            Some(old) => retire(v.entries, old),
                            None => v.entries,
                        };
                        assert forall|p: Seq<char>| #[trigger] w.current.contains_key(p) implies w.entries.contains_key(w.current[p]) && w.entries[w.current[p]].0 == p by {
                            if p != path {
                                assert(v.current.contains_key(p));
                                let t = v.current[p];
                                assert(v.entries.contains_key(t) && v.entries[t].0 == p);
                                assert(t < v.next_ticket);
                                if v.current.contains_key(path) {
                                    assert(v.current[path] != t);
                                }
                                assert(kept.contains_key(t));
                            }
                        }
                        assert forall|t: u64| #[trigger] w.entries.contains_key(t) implies t < w.next_ticket by {
                            if t != v.next_ticket {
                                assert(kept.contains_key(t));
                                assert(v.entries.contains_key(t));
                            }
                        }
                    },
                }
            }
        },
        CacheOp::Publish(t, pages) => {
            assert forall|p: Seq<char>| #[trigger] w.current.contains_key(p) implies w.entries.contains_key(w.current[p]) && w.entries[w.current[p]].0 == p by {
                assert(v.entries.contains_key(v.current[p]));
            }
        },
        CacheOp::Abandon(t) => {
            assert forall|p: Seq<char>| #[trigger] w.current.contains_key(p) implies w.entries.contains_key(w.current[p]) && w.entries[w.current[p]].0 == p by {
                assert(v.current.contains_key(p));
                assert(v.entries.contains_key(v.current[p]));
                if v.entries.contains_key(t) && v.current[p] == t {
                    assert(is_current(v, t));
                }
            }
        },
        CacheOp::Leave(t) => {
            assert forall|p: Seq<char>| #[trigger] w.current.contains_key(p) implies w.entries.contains_key(w.current[p]) && w.entries[w.current[p]].0 == p by {
                assert(v.entries.contains_key(v.current[p]));
                if v.entries.contains_key(t) && v.current[p] == t {
                    assert(is_current(v, t));
                }
            }
        },
    }
}

proof fn lemma_run_wf(v: CacheView, ops: Seq<CacheOp>)
    requires
        view_wf(v),
    ensures
        view_wf(run(v, ops)),
    decreases ops.len(),
{
    if ops.len() > 0 {
        lemma_run_wf(v, ops.drop_last());
        lemma_apply_wf(run(v, ops.drop_last()), ops.last());
    }
}

proof fn lemma_run_pages_published(ops: Seq<CacheOp>)
    ensures
        forall|t: u64|
            #[trigger] run(empty_cache(), ops).entries.contains_key(t) && run(
                empty_cache(),
                ops,
            ).entries[t].2 is Some ==> run(empty_cache(), ops).entries[t].2 == last_publish(
                ops,
                t,
            ),
    decreases ops.len(),
{
    if ops.len() > 0 {
        let pre = ops.drop_last();
        lemma_run_pages_published(pre);
        let v = run(empty_cache(), pre);
        let w = run(empty_cache(), ops);
        assert(w == apply(v, ops.last()));
        assert forall|t: u64| #[trigger] w.entries.contains_key(t) && w.entries[t].2 is Some implies w.entries[t].2 == last_publish(ops, t) by {
            match ops.last() {
                CacheOp::Claim(path, signature) => {
                    assert(v.entries.contains_key(t));
                },
                CacheOp::Publish(t2, pages) => {
                    if t2 != t {
                        assert(v.entries.contains_key(t));
                    }
                },
                CacheOp::Abandon(t2) => {
                    assert(v.entries.contains_key(t));
                },
                CacheOp::Leave(t2) => {
                    assert(v.entries.contains_key(t));
                },
            }
        }
    }
}

/// Over any history of calls from an empty cache, the index a caller asking
/// for a version of an archive is given is the one last published by the
/// build of exactly that path and version.
pub proof fn lemma_served_index_is_last_published(
    ops: Seq<CacheOp>,
    path: Seq<char>,
    signature: ArchiveSignature,
)
    ensures
        ({
            let v = run(empty_cache(), ops);
            match claim_decision(v, path, signature) {
                CacheDecision::Wait(t) => match poll_view(v, t) {
                    Some(Some(pages)) => {
                        &&& Some(pages) == last_publish(ops, t)
                        &&& v.entries[t].0 == path
                        &&& v.entries[t].1 == signature
                    },
                    _ => true,
                },
                CacheDecision::Build(_) => true,
            }
        }),
{
    lemma_run_pages_published(ops);
    lemma_run_wf(empty_cache(), ops);
    let v = run(empty_cache(), ops);
    if v.current.contains_key(path) {
        assert(v.entries.contains_key(v.current[path]));
    }
}

/// Whether a call leaves alone the build `t` of `path` at `signature`: it
/// does not claim the path for another version, nor publish or abandon `t`.
pub open spec fn keeps_build(op: CacheOp, path: Seq<char>, signature: ArchiveSignature, t: u64) -> bool {
    match op {
        CacheOp::Claim(p, s) => p != path || s == signature,
        CacheOp::Publish(t2, _) => t2 != t,
        CacheOp::Abandon(t2) => t2 != t,
        CacheOp::Leave(_) => true,
    }
}

proof fn lemma_run_keeps_build(
    v: CacheView,
    ops: Seq<CacheOp>,
    path: Seq<char>,
    signature: ArchiveSignature,
    t: u64,
    pages: Seq<IndexedZipEntry>,
)
    requires
        view_wf(v),
        v.current.get(path) == Some(t),
        v.entries.contains_key(t),
        v.entries[t].0 == path,
        v.entries[t].1 == signature,
        v.entries[t].2 == Some(pages),
        forall|k: int| 0 <= k < ops.len() ==> keeps_build(#[trigger] ops[k], path, signature, t),
    ensures
        ({
            let w = run(v, ops);
            &&& view_wf(w)
            &&& w.current.get(path) == Some(t)
            &&& w.entries.contains_key(t)
            &&& w.entries[t].0 == path
            &&& w.entries[t].1 == signature
            &&& w.entries[t].2 == Some(pages)
        }),
    decreases ops.len(),
{
    if ops.len() > 0 {
        let pre = ops.drop_last();
        assert forall|k: int| 0 <= k < pre.len() implies keeps_build(#[trigger] pre[k], path, signature, t) by {
            assert(pre[k] == ops[k]);
        }
        lemma_run_keeps_build(v, pre, path, signature, t, pages);
        let u = run(v, pre);
        lemma_apply_wf(u, ops.last());
        assert(keeps_build(ops[ops.len() - 1], path, signature, t));
        assert(is_current(u, t));
        match ops.last() {
            CacheOp::Claim(q, s) => {
                if q != path && can_claim_spec(u, q, s) && joinable(u, q, s).is_none() {
                    assert(t < u.next_ticket);
                    if u.current.contains_key(q) {
                        assert(u.entries[u.current[q]].0 == q);
                    }
                }
                if q != path && can_claim_spec(u, q, s) && joinable(u, q, s).is_some() {
                    assert(u.entries[u.current[q]].0 == q);
                }
            },
            CacheOp::Publish(t2, _) => {},
            CacheOp::Abandon(t2) => {
                if u.entries.contains_key(t2) && is_current(u, t2) {
                    assert(u.current[u.entries[t2].0] == t2);
                }
            },
            CacheOp::Leave(t2) => {},
        }
    }
}

/// Once an index is published for a version of an archive, it is reused, not
/// rebuilt: a caller asking for that version joins the same build and finds
/// the same index, whatever happens after, as long as the path is not claimed
/// for another version and that build is not published again or abandoned.
pub proof fn lemma_published_index_is_reused(
    before: Seq<CacheOp>,
    after: Seq<CacheOp>,
    path: Seq<char>,
    signature: ArchiveSignature,
    t: u64,
    pages: Seq<IndexedZipEntry>,
)
    requires
        claim_decision(run(empty_cache(), before), path, signature) == CacheDecision::Wait(t),
        poll_view(run(empty_cache(), before), t) == Some(Some(pages)),
        forall|k: int| 0 <= k < after.len() ==> keeps_build(#[trigger] after[k], path, signature, t),
    ensures
        claim_decision(run(run(empty_cache(), before), after), path, signature)
            == CacheDecision::Wait(t),
        poll_view(run(run(empty_cache(), before), after), t) == Some(Some(pages)),
{
    let v = run(empty_cache(), before);
    lemma_run_wf(empty_cache(), before);
    lemma_run_keeps_build(v, after, path, signature, t, pages);
}

proof fn lemma_run_keeps_gone(v: CacheView, ops: Seq<CacheOp>, t: u64)
    requires
        view_wf(v),
        !v.entries.contains_key(t),
        t < v.next_ticket,
    ensures
        view_wf(run(v, ops)),
        !run(v, ops).entries.contains_key(t),
        t < run(v, ops).next_ticket,
    decreases ops.len(),
{
    if ops.len() > 0 {
        lemma_run_keeps_gone(v, ops.drop_last(), t);
        lemma_apply_wf(run(v, ops.drop_last()), ops.last());
    }
}

/// Whether a call publishes an index under ticket `t`.
pub open spec fn publishes(op: CacheOp, t: u64) -> bool {
    match op {
        CacheOp::Publish(t2, _) => t2 == t,
        _ => false,
    }
}

/// Whether no path has build `t` as its current one.
pub open spec fn not_current(v: CacheView, t: u64) -> bool {
    forall|p: Seq<char>| #[trigger] v.current.contains_key(p) ==> v.current[p] != t
}

proof fn lemma_run_keeps_abandoned(v: CacheView, ops: Seq<CacheOp>, t: u64)
    requires
        view_wf(v),
        t < v.next_ticket,
        not_current(v, t),
    ensures
        view_wf(run(v, ops)),
        t < run(v, ops).next_ticket,
        not_current(run(v, ops), t),
        (v.entries.contains_key(t) ==> v.entries[t].2 is None) && (forall|k: int|
            0 <= k < ops.len() ==> !publishes(#[trigger] ops[k], t)) ==> (run(v, ops).entries.contains_key(t)
            ==> run(v, ops).entries[t].2 is None),
    decreases ops.len(),
{
    if ops.len() > 0 {
        let pre = ops.drop_last();
        lemma_run_keeps_abandoned(v, pre, t);
        let u = run(v, pre);
        let w = run(v, ops);
        lemma_apply_wf(u, ops.last());
        assert(w == apply(u, ops.last()));
        assert forall|p: Seq<char>| #[trigger] w.current.contains_key(p) implies w.current[p] != t by {
            match ops.last() {
                CacheOp::Claim(q, sg) => {
                    if p != q || !can_claim_spec(u, q, sg) || joinable(u, q, sg).is_some() {
                        assert(u.current.contains_key(p));
                    }
                },
                _ => {
                    assert(u.current.contains_key(p));
                },
            }
        }
        if (v.entries.contains_key(t) ==> v.entries[t].2 is None) && (forall|k: int|
            0 <= k < ops.len() ==> !publishes(#[trigger] ops[k], t)) {
            assert forall|k: int| 0 <= k < pre.len() implies !publishes(#[trigger] pre[k], t) by {
                assert(pre[k] == ops[k]);
            }
            assert(!publishes(ops[ops.len() - 1], t));
            if w.entries.contains_key(t) {
                match ops.last() {
                    CacheOp::Claim(q, sg) => {
                        if can_claim_spec(u, q, sg) {
                            match joinable(u, q, sg) {
                                Some(t2) => {
                                    assert(u.current.contains_key(q));
                                    assert(t2 != t);
                                    assert(u.entries.contains_key(t));
                                },
                                None => {
                                    assert(t != u.next_ticket);
                                    if u.current.contains_key(q) {
                                        assert(u.current[q] != t);
                                    }
                                    assert(u.entries.contains_key(t));
                                },
                            }
                        }
                    },
                    CacheOp::Publish(t2, _) => {
                        assert(t2 != t);
                        assert(u.entries.contains_key(t));
                    },
                    CacheOp::Abandon(t2) => {
                        assert(u.entries.contains_key(t));
                    },
                    CacheOp::Leave(t2) => {
                        assert(u.entries.contains_key(t));
                    },
                }
            }
        }
    }
}

/// A failed build is never reused: once build `t` is abandoned, no later
/// claim, for any path and version, joins it. Where nobody waited on it, no
/// later state holds it; where it had not been built, the callers already
/// waiting on it never find it built, as long as nothing is published under
/// its ticket.
pub proof fn lemma_abandoned_build_is_never_served(
    before: Seq<CacheOp>,
    after: Seq<CacheOp>,
    t: u64,
    path: Seq<char>,
    signature: ArchiveSignature,
)
    requires
        run(empty_cache(), before).entries.contains_key(t),
    ensures
        ({
            let v = run(empty_cache(), before);
            let w = run(apply(v, CacheOp::Abandon(t)), after);
            &&& claim_decision(w, path, signature) != CacheDecision::Wait(t)
            &&& v.entries[t].3 == 0 ==> poll_view(w, t) == None::<Option<Seq<IndexedZipEntry>>>
            &&& v.entries[t].2 is None && (forall|k: int|
                0 <= k < after.len() ==> !publishes(#[trigger] after[k], t)) ==> (poll_view(w, t) is Some
                ==> poll_view(w, t)->0 is None)
        }),
{
    let v = run(empty_cache(), before);
    lemma_run_wf(empty_cache(), before);
    let a = apply(v, CacheOp::Abandon(t));
    lemma_apply_wf(v, CacheOp::Abandon(t));
    assert(t < v.next_ticket);
    assert forall|p: Seq<char>| #[trigger] a.current.contains_key(p) implies a.current[p] != t by {
        assert(v.current.contains_key(p));
        if v.current[p] == t {
            assert(v.entries[t].0 == p);
            assert(is_current(v, t));
        }
    }
    lemma_run_keeps_abandoned(a, after, t);
    let w = run(a, after);
    if w.current.contains_key(path) {
        assert(w.current[path] != t);
    }
    if v.entries[t].3 == 0 {
        lemma_run_keeps_gone(a, after, t);
    }
}

/// Over any history of calls from an empty cache, a build that fails is
/// retried: where a caller is told to build a version and abandons that
/// build, the build is gone and the next caller for the same version is told
/// to build again.
pub proof fn lemma_failed_build_is_retried(
    before: Seq<CacheOp>,
    path: Seq<char>,
    signature: ArchiveSignature,
)
    requires
        claim_decision(run(empty_cache(), before), path, signature) is Build,
        can_claim_spec(run(empty_cache(), before), path, signature),
    ensures
        ({
            let t = run(empty_cache(), before).next_ticket;
            let w = run(
                empty_cache(),
                before.push(CacheOp::Claim(path, signature)).push(CacheOp::Abandon(t)),
            );
            &&& poll_view(w, t) == None::<Option<Seq<IndexedZipEntry>>>
            &&& claim_decision(w, path, signature) == CacheDecision::Build(w.next_ticket)
        }),
{
    let v = run(empty_cache(), before);
    lemma_run_wf(empty_cache(), before);
    let ops = before.push(CacheOp::Claim(path, signature)).push(CacheOp::Abandon(v.next_ticket));
    assert(ops.drop_last() =~= before.push(CacheOp::Claim(path, signature)));
    assert(ops.drop_last().drop_last() =~= before);
    assert(run(empty_cache(), ops.drop_last()) == after_claim(v, path, signature));
    assert(run(empty_cache(), ops) == after_abandon(after_claim(v, path, signature), v.next_ticket));
    lemma_abandoned_build_is_forgotten(v, path, signature);
}

struct CacheSlot {
    path: String,
    signature: ArchiveSignature,
    ticket: u64,
    pages: Option<Vec<IndexedZipEntry>>,
    waiters: u64,
    current: bool,
}

spec fn slot_entry(s: CacheSlot) -> CacheEntry {
    (
        s.path@,
        s.signature,
        match s.pages {
            Some(v) => Some(v@),
            None => None,
        },
        s.waiters,
    )
}

spec fn entries_of(s: Seq<CacheSlot>) -> Map<u64, CacheEntry>
    decreases s.len(),
{
    if s.len() == 0 {
        Map::empty()
    } else {
        entries_of(s.drop_last()).insert(s.last().ticket, slot_entry(s.last()))
    }
}

spec fn current_of(s: Seq<CacheSlot>) -> Map<Seq<char>, u64>
    decreases s.len(),
{
    if s.len() == 0 {
        Map::empty()
    } else if s.last().current {
        current_of(s.drop_last()).insert(s.last().path@, s.last().ticket)
    } else {
        current_of(s.drop_last())
    }
}

spec fn slots_wf(s: Seq<CacheSlot>) -> bool {
    &&& forall|i: int, j: int|
        0 <= i < j < s.len() ==> #[trigger] s[i].ticket != #[trigger] s[j].ticket
    &&& forall|i: int, j: int|
        0 <= i < j < s.len() && s[i].current && s[j].current ==> #[trigger] s[i].path@
            != #[trigger] s[j].path@
}

proof fn lemma_ticket_absent(s: Seq<CacheSlot>, t: u64)
    requires
        forall|i: int| 0 <= i < s.len() ==> #[trigger] s[i].ticket != t,
    ensures
        !entries_of(s).contains_key(t),
    decreases s.len(),
{
    if s.len() > 0 {
        lemma_ticket_absent(s.drop_last(), t);
    }
}

proof fn lemma_ticket_lookup(s: Seq<CacheSlot>, i: int)
    requires
        slots_wf(s),
        0 <= i < s.len(),
    ensures
        entries_of(s).contains_key(s[i].ticket),
        entries_of(s)[s[i].ticket] == slot_entry(s[i]),
    decreases s.len(),
{
    if i < s.len() - 1 {
        lemma_ticket_lookup(s.drop_last(), i);
        assert(s[i].ticket != s.last().ticket);
    }
}

proof fn lemma_ticket_present(s: Seq<CacheSlot>, t: u64)
    requires
        entries_of(s).contains_key(t),
    ensures
        exists|i: int| 0 <= i < s.len() && #[trigger] s[i].ticket == t,
    decreases s.len(),
{
    if s.last().ticket != t {
        lemma_ticket_present(s.drop_last(), t);
        let i = choose|i: int| 0 <= i < s.len() - 1 && #[trigger] s.drop_last()[i].ticket == t;
        assert(s[i].ticket == t);
    } else {
        assert(s[s.len() - 1].ticket == t);
    }
}

proof fn lemma_current_absent(s: Seq<CacheSlot>, p: Seq<char>)
    requires
        forall|i: int| 0 <= i < s.len() && #[trigger] s[i].current ==> s[i].path@ != p,
    ensures
        !current_of(s).contains_key(p),
    decreases s.len(),
{
    if s.len() > 0 {
        lemma_current_absent(s.drop_last(), p);
    }
}

proof fn lemma_current_lookup(s: Seq<CacheSlot>, i: int)
    requires
        slots_wf(s),
        0 <= i < s.len(),
        s[i].current,
    ensures
        current_of(s).contains_key(s[i].path@),
        current_of(s)[s[i].path@] == s[i].ticket,
    decreases s.len(),
{
    if i < s.len() - 1 {
        lemma_current_lookup(s.drop_last(), i);
        if s.last().current {
            assert(s[i].path@ != s.last().path@);
        }
    }
}

proof fn lemma_current_present(s: Seq<CacheSlot>, p: Seq<char>)
    requires
        current_of(s).contains_key(p),
    ensures
        exists|i: int|
            0 <= i < s.len() && #[trigger] s[i].current && s[i].path@ == p && s[i].ticket
                == current_of(s)[p],
    decreases s.len(),
{
    if s.last().current && s.last().path@ == p {
        assert(s[s.len() - 1].current);
    } else {
        lemma_current_present(s.drop_last(), p);
        let i = choose|i: int|
            0 <= i < s.len() - 1 && #[trigger] s.drop_last()[i].current && s.drop_last()[i].path@
                == p && s.drop_last()[i].ticket == current_of(s.drop_last())[p];
        assert(s[i] == s.drop_last()[i]);
    }
}

proof fn lemma_slots_update(s: Seq<CacheSlot>, i: int, x: CacheSlot)
    requires
        slots_wf(s),
        0 <= i < s.len(),
        x.ticket == s[i].ticket,
        x.path@ == s[i].path@,
        x.current ==> s[i].current,
    ensures
        slots_wf(s.update(i, x)),
        entries_of(s.update(i, x)) =~= entries_of(s).insert(x.ticket, slot_entry(x)),
        current_of(s.update(i, x)) =~= (if s[i].current && !x.current {
            current_of(s).remove(x.path@)
        } else {
            current_of(s)
        }),
    decreases s.len(),
{
    let t = s.update(i, x);
    assert forall|a: int, b: int| 0 <= a < b < t.len() implies #[trigger] t[a].ticket
        != #[trigger] t[b].ticket by {
        assert(t[a].ticket == s[a].ticket && t[b].ticket == s[b].ticket);
    }
    assert forall|a: int, b: int|
        0 <= a < b < t.len() && t[a].current && t[b].current implies #[trigger] t[a].path@
        != #[trigger] t[b].path@ by {
        assert(t[a].path@ == s[a].path@ && t[b].path@ == s[b].path@);
        assert(t[a].current ==> s[a].current);
        assert(t[b].current ==> s[b].current);
    }
    if i == s.len() - 1 {
        assert(t.drop_last() =~= s.drop_last());
        if s[i].current && !x.current {
            assert forall|k: int|
                0 <= k < s.drop_last().len() && #[trigger] s.drop_last()[k].current implies s.drop_last()[k].path@
                != x.path@ by {
                assert(s.drop_last()[k] == s[k]);
            }
            lemma_current_absent(s.drop_last(), x.path@);
        }
    } else {
        lemma_slots_update(s.drop_last(), i, x);
        assert(t.drop_last() =~= s.drop_last().update(i, x));
        assert(s[i].ticket != s.last().ticket);
        if s[i].current && s.last().current {
            assert(s[i].path@ != s.last().path@);
        }
    }
}

proof fn lemma_slots_remove(s: Seq<CacheSlot>, i: int)
    requires
        slots_wf(s),
        0 <= i < s.len(),
    ensures
        slots_wf(s.remove(i)),
        entries_of(s.remove(i)) =~= entries_of(s).remove(s[i].ticket),
        current_of(s.remove(i)) =~= (if s[i].current {
            current_of(s).remove(s[i].path@)
        } else {
            current_of(s)
        }),
    decreases s.len(),
{
    let t = s.remove(i);
    assert forall|a: int, b: int| 0 <= a < b < t.len() implies #[trigger] t[a].ticket
        != #[trigger] t[b].ticket by {
        let a2 = if a < i { a } else { a + 1 };
        let b2 = if b < i { b } else { b + 1 };
        assert(t[a] == s[a2] && t[b] == s[b2]);
    }
    assert forall|a: int, b: int|
        0 <= a < b < t.len() && t[a].current && t[b].current implies #[trigger] t[a].path@
        != #[trigger] t[b].path@ by {
        let a2 = if a < i { a } else { a + 1 };
        let b2 = if b < i { b } else { b + 1 };
        assert(t[a] == s[a2] && t[b] == s[b2]);
    }
    if i == s.len() - 1 {
        assert(t =~= s.drop_last());
        assert forall|k: int| 0 <= k < t.len() implies #[trigger] t[k].ticket != s[i].ticket by {
            assert(t[k] == s[k]);
        }
        lemma_ticket_absent(t, s[i].ticket);
        if s[i].current {
            assert forall|k: int| 0 <= k < t.len() && #[trigger] t[k].current implies t[k].path@
                != s[i].path@ by {
                assert(t[k] == s[k]);
            }
            lemma_current_absent(t, s[i].path@);
        }
    } else {
        lemma_slots_remove(s.drop_last(), i);
        assert(t.drop_last() =~= s.drop_last().remove(i));
        assert(t.last() == s.last());
        assert(s[i].ticket != s.last().ticket);
        if s[i].current && s.last().current {
            assert(s[i].path@ != s.last().path@);
        }
    }
}

/// The cache of page indexes.
pub struct PageIndexCache {
    slots: Vec<CacheSlot>,
    next_ticket: u64,
}

/// A copy of a page list.
fn copy_pages(v: &Vec<IndexedZipEntry>) -> (r: Vec<IndexedZipEntry>)
    ensures
        r@ == v@,
{
    let mut r: Vec<IndexedZipEntry> = Vec::new();
    let mut i: usize = 0;
    while i < v.len()
        invariant
            i <= v.len(),
            r@ == v@.take(i as int),
        decreases v.len() - i,
    {
        r.push(v[i]);
        assert(v@.take(i + 1) =~= v@.take(i as int).push(v@[i as int]));
        i = i + 1;
    }
    assert(v@.take(v.len() as int) =~= v@);
    r
}

impl PageIndexCache {
    /// What the cache holds.
    pub closed spec fn view(&self) -> CacheView {
        CacheView {
            current: current_of(self.slots@),
            entries: entries_of(self.slots@),
            next_ticket: self.next_ticket,
        }
    }

    /// The cache's internal consistency.
    pub closed spec fn wf(&self) -> bool {
        &&& slots_wf(self.slots@)
        &&& forall|i: int| 0 <= i < self.slots@.len() ==> #[trigger] self.slots@[i].ticket
            < self.next_ticket
    }

    /// An empty cache.
    pub fn new() -> (r: Self)
        ensures
            r.wf(),
            r.view() == empty_cache(),
    {
        let r = PageIndexCache { slots: Vec::new(), next_ticket: 0 };
        assert(r.view().current =~= Map::<Seq<char>, u64>::empty());
        assert(r.view().entries =~= Map::<u64, CacheEntry>::empty());
        r
    }

    /// The slot of the current build of `path`.
    fn find_current(&self, path: &str) -> (r: Option<usize>)
        requires
            self.wf(),
        ensures
            match r {
                Some(i) => i < self.slots@.len() && self.slots@[i as int].current
                    && self.slots@[i as int].path@ == path@,
                None => forall|i: int|
                    0 <= i < self.slots@.len() && #[trigger] self.slots@[i].current
                        ==> self.slots@[i].path@ != path@,
            },
    {
        let mut i: usize = 0;
        while i < self.slots.len()
            invariant
                i <= self.slots@.len(),
                forall|j: int|
                    0 <= j < i && #[trigger] self.slots@[j].current ==> self.slots@[j].path@
                        != path@,
            decreases self.slots.len() - i,
        {
            if self.slots[i].current && same_text(self.slots[i].path.as_str(), path) {
                return Some(i);
            }
            i = i + 1;
        }
        None
    }

    /// The slot of build `ticket`.
    fn find_ticket(&self, ticket: u64) -> (r: Option<usize>)
        requires
            self.wf(),
        ensures
            match r {
                Some(i) => i < self.slots@.len() && self.slots@[i as int].ticket == ticket,
                None => forall|i: int|
                    0 <= i < self.slots@.len() ==> #[trigger] self.slots@[i].ticket != ticket,
            },
    {
        let mut i: usize = 0;
        while i < self.slots.len()
            invariant
                i <= self.slots@.len(),
                forall|j: int| 0 <= j < i ==> #[trigger] self.slots@[j].ticket != ticket,
            decreases self.slots.len() - i,
        {
            if self.slots[i].ticket == ticket {
                return Some(i);
            }
            i = i + 1;
        }
        None
    }

    /// Whether slot `i` is the current build of its path, as the view sees it.
    proof fn lemma_slot_current(&self, i: int)
        requires
            self.wf(),
            0 <= i < self.slots@.len(),
        ensures
            self.slots@[i].current == is_current(self.view(), self.slots@[i].ticket),
            self.view().entries[self.slots@[i].ticket] == slot_entry(self.slots@[i]),
            self.view().entries.contains_key(self.slots@[i].ticket),
    {
        let s = self.slots@;
        lemma_ticket_lookup(s, i);
        if s[i].current {
            lemma_current_lookup(s, i);
        } else if current_of(s).get(s[i].path@) == Some(s[i].ticket) {
            lemma_current_present(s, s[i].path@);
            let j = choose|j: int|
                0 <= j < s.len() && #[trigger] s[j].current && s[j].path@ == s[i].path@
                    && s[j].ticket == current_of(s)[s[i].path@];
            assert(s[j].ticket == s[i].ticket);
            if j < i {
                assert(s[j].ticket != s[i].ticket);
            } else if j > i {
                assert(s[i].ticket != s[j].ticket);
            }
        }
    }

    /// Whether `claim` can count another caller for `path` at `signature`.
    pub fn can_claim(&self, path: &str, signature: ArchiveSignature) -> (r: bool)
        requires
            self.wf(),
        ensures
            r == can_claim_spec(self.view(), path@, signature),
    {
        match self.find_current(path) {
            Some(i) => {
                proof {
                    lemma_current_lookup(self.slots@, i as int);
                    lemma_ticket_lookup(self.slots@, i as int);
                }
                if self.slots[i].signature == signature {
                    self.slots[i].waiters < u64::MAX
                } else {
                    self.next_ticket < u64::MAX
                }
            },
            None => {
                proof {
                    lemma_current_absent(self.slots@, path@);
                }
                self.next_ticket < u64::MAX
            },
        }
    }

    /// Looks up the index of `path` for the archive version `signature`. The
    /// current build of that version, finished or not, is joined; otherwise a
    /// new build becomes the path's current one and the caller is to make it.
    #[verifier::spinoff_prover]
    pub fn claim(&mut self, path: &str, signature: ArchiveSignature) -> (r: CacheDecision)
        requires
            old(self).wf(),
            can_claim_spec(old(self).view(), path@, signature),
        ensures
            final(self).wf(),
            r == claim_decision(old(self).view(), path@, signature),
            final(self).view() == after_claim(old(self).view(), path@, signature),
    {
        let ticket = self.next_ticket;
        let ghost v = self.view();
        match self.find_current(path) {
            Some(i) => {
                proof {
                    lemma_current_lookup(self.slots@, i as int);
                    lemma_ticket_lookup(self.slots@, i as int);
                }
                if self.slots[i].signature == signature {
                    let joined = self.slots[i].ticket;
                    let slot = CacheSlot {
                        path: self.slots[i].path.clone(),
                        signature,
                        ticket: joined,
                        pages: match &self.slots[i].pages {
                            Some(p) => Some(copy_pages(p)),
                            None => None,
                        },
                        waiters: self.slots[i].waiters + 1,
                        current: true,
                    };
                    proof {
                        lemma_slots_update(self.slots@, i as int, slot);
                    }
                    let ghost before = v;
                    self.slots.set(i, slot);
                    assert forall|k: int| 0 <= k < self.slots@.len() implies #[trigger] self.slots@[k].ticket
                        < self.next_ticket by {
                        lemma_ticket_lookup(self.slots@, k);
                    }
                    assert(self.view().entries =~= after_claim(v, path@, signature).entries);
                    return CacheDecision::Wait(joined);
                }
                let old_ticket = self.slots[i].ticket;
                let ghost before = self.slots@;
                if self.slots[i].pages.is_some() && self.slots[i].waiters == 0 {
                    proof {
                        lemma_slots_remove(self.slots@, i as int);
                    }
                    self.slots.remove(i);
                    assert forall|k: int| 0 <= k < self.slots@.len() implies #[trigger] self.slots@[k].ticket
                        < ticket && (self.slots@[k].current ==> self.slots@[k].path@ != path@) by {
                        let k2 = if k < i { k } else { k + 1 };
                        assert(self.slots@[k] == before[k2]);
                        assert(k2 != i);
                    }
                    assert(entries_of(self.slots@) =~= retire(v.entries, old_ticket));
                } else {
                    let slot = CacheSlot {
                        path: self.slots[i].path.clone(),
                        signature: self.slots[i].signature,
                        ticket: old_ticket,
                        pages: match &self.slots[i].pages {
                            Some(p) => Some(copy_pages(p)),
                            None => None,
                        },
                        waiters: self.slots[i].waiters,
                        current: false,
                    };
                    proof {
                        lemma_slots_update(self.slots@, i as int, slot);
                    }
                    self.slots.set(i, slot);
                    assert forall|k: int| 0 <= k < self.slots@.len() implies #[trigger] self.slots@[k].ticket
                        < ticket && (self.slots@[k].current ==> self.slots@[k].path@ != path@) by {
                        if k != i {
                            assert(self.slots@[k] == before[k]);
                        }
                    }
                    assert(entries_of(self.slots@) =~= retire(v.entries, old_ticket));
                }
            },
            None => {
                proof {
                    lemma_current_absent(self.slots@, path@);
                }
            },
        }
        let ghost mid = self.slots@;
        let slot = CacheSlot {
            path: path.to_owned(),
            signature,
            ticket,
            pages: None,
            waiters: 0,
            current: true,
        };
        self.slots.push(slot);
        self.next_ticket = ticket + 1;
        proof {
            let s2 = self.slots@;
            assert(s2.drop_last() =~= mid);
            assert forall|a: int, b: int| 0 <= a < b < s2.len() implies #[trigger] s2[a].ticket
                != #[trigger] s2[b].ticket by {
                if b == s2.len() - 1 {
                    assert(s2[a] == mid[a]);
                } else {
                    assert(s2[a] == mid[a] && s2[b] == mid[b]);
                }
            }
            assert forall|a: int, b: int|
                0 <= a < b < s2.len() && s2[a].current && s2[b].current implies #[trigger] s2[a].path@
                != #[trigger] s2[b].path@ by {
                if b == s2.len() - 1 {
                    assert(s2[a] == mid[a]);
                } else {
                    assert(s2[a] == mid[a] && s2[b] == mid[b]);
                }
            }
            assert forall|k: int| 0 <= k < s2.len() implies #[trigger] s2[k].ticket < self.next_ticket by {
                if k < s2.len() - 1 {
                    assert(s2[k] == mid[k]);
                }
            }
            assert(current_of(s2) =~= v.current.insert(path@, ticket));
            assert(self.view().entries =~= after_claim(v, path@, signature).entries);
        }
        CacheDecision::Build(ticket)
    }

    /// Stores the built index of build `ticket`, or drops the build where
    /// nobody can ask for it any more.
    pub fn publish(&mut self, ticket: u64, index: &ZipPageIndex)
        requires
            old(self).wf(),
        ensures
            final(self).wf(),
            final(self).view() == after_publish(old(self).view(), ticket, index.entries@),
    {
        let ghost v = self.view();
        match self.find_ticket(ticket) {
            Some(i) => {
                proof {
                    self.lemma_slot_current(i as int);
                }
                let ghost before = self.slots@;
                if self.slots[i].current || self.slots[i].waiters > 0 {
                    let slot = CacheSlot {
                        path: self.slots[i].path.clone(),
                        signature: self.slots[i].signature,
                        ticket,
                        pages: Some(copy_pages(&index.entries)),
                        waiters: self.slots[i].waiters,
                        current: self.slots[i].current,
                    };
                    proof {
                        lemma_slots_update(self.slots@, i as int, slot);
                    }
                    self.slots.set(i, slot);
                    assert forall|k: int| 0 <= k < self.slots@.len() implies #[trigger] self.slots@[k].ticket
                        < self.next_ticket by {
                        if k != i {
                            assert(self.slots@[k] == before[k]);
                        }
                    }
                    assert(self.view().entries =~= after_publish(v, ticket, index.entries@).entries);
                } else {
                    proof {
                        lemma_slots_remove(self.slots@, i as int);
                    }
                    self.slots.remove(i);
                    assert forall|k: int| 0 <= k < self.slots@.len() implies #[trigger] self.slots@[k].ticket
                        < self.next_ticket by {
                        let k2 = if k < i { k } else { k + 1 };
                        assert(self.slots@[k] == before[k2]);
                    }
                }
            },
            None => {
                proof {
                    lemma_ticket_absent(self.slots@, ticket);
                }
            },
        }
    }

    /// Gives up build `ticket`, which failed: its path has no current build
    /// if it was that one, and the build is dropped unless callers wait on it.
    pub fn abandon(&mut self, ticket: u64)
        requires
            old(self).wf(),
        ensures
            final(self).wf(),
            final(self).view() == after_abandon(old(self).view(), ticket),
    {
        let ghost v = self.view();
        match self.find_ticket(ticket) {
            Some(i) => {
                proof {
                    self.lemma_slot_current(i as int);
                }
                let ghost before = self.slots@;
                if self.slots[i].waiters > 0 {
                    let slot = CacheSlot {
                        path: self.slots[i].path.clone(),
                        signature: self.slots[i].signature,
                        ticket,
                        pages: match &self.slots[i].pages {
                            Some(p) => Some(copy_pages(p)),
                            None => None,
                        },
                        waiters: self.slots[i].waiters,
                        current: false,
                    };
                    proof {
                        lemma_slots_update(self.slots@, i as int, slot);
                    }
                    self.slots.set(i, slot);
                    assert forall|k: int| 0 <= k < self.slots@.len() implies #[trigger] self.slots@[k].ticket
                        < self.next_ticket by {
                        if k != i {
                            assert(self.slots@[k] == before[k]);
                        }
                    }
                    assert(self.view().entries =~= after_abandon(v, ticket).entries);
                } else {
                    proof {
                        lemma_slots_remove(self.slots@, i as int);
                    }
                    self.slots.remove(i);
                    assert forall|k: int| 0 <= k < self.slots@.len() implies #[trigger] self.slots@[k].ticket
                        < self.next_ticket by {
                        let k2 = if k < i { k } else { k + 1 };
                        assert(self.slots@[k] == before[k2]);
                    }
                }
            },
            None => {
                proof {
                    lemma_ticket_absent(self.slots@, ticket);
                }
            },
        }
    }

    /// A waiter of build `ticket` is done with it; a finished build that is
    /// no longer current and that nobody waits on is dropped.
    pub fn leave(&mut self, ticket: u64)
        requires
            old(self).wf(),
        ensures
            final(self).wf(),
            final(self).view() == after_leave(old(self).view(), ticket),
    {
        let ghost v = self.view();
        match self.find_ticket(ticket) {
            Some(i) => {
                proof {
                    self.lemma_slot_current(i as int);
                }
                let ghost before = self.slots@;
                let w: u64 = if self.slots[i].waiters > 0 {
                    self.slots[i].waiters - 1
                } else {
                    0
                };
                if w == 0 && !self.slots[i].current && self.slots[i].pages.is_some() {
                    proof {
                        lemma_slots_remove(self.slots@, i as int);
                    }
                    self.slots.remove(i);
                    assert forall|k: int| 0 <= k < self.slots@.len() implies #[trigger] self.slots@[k].ticket
                        < self.next_ticket by {
                        let k2 = if k < i { k } else { k + 1 };
                        assert(self.slots@[k] == before[k2]);
                    }
                } else {
                    let slot = CacheSlot {
                        path: self.slots[i].path.clone(),
                        signature: self.slots[i].signature,
                        ticket,
                        pages: match &self.slots[i].pages {
                            Some(p) => Some(copy_pages(p)),
                            None => None,
                        },
                        waiters: w,
                        current: self.slots[i].current,
                    };
                    proof {
                        lemma_slots_update(self.slots@, i as int, slot);
                    }
                    self.slots.set(i, slot);
                    assert forall|k: int| 0 <= k < self.slots@.len() implies #[trigger] self.slots@[k].ticket
                        < self.next_ticket by {
                        if k != i {
                            assert(self.slots@[k] == before[k]);
                        }
                    }
                    assert(self.view().entries =~= after_leave(v, ticket).entries);
                }
            },
            None => {
                proof {
                    lemma_ticket_absent(self.slots@, ticket);
                }
            },
        }
    }

    /// What a caller holding `ticket` finds.
    pub fn poll(&self, ticket: u64) -> (r: PollResult)
        requires
            self.wf(),
        ensures
            match poll_view(self.view(), ticket) {
                Some(Some(pages)) => r is Ready && r->Ready_0.entries@ == pages,
                _ => r is Building,
            },
    {
        match self.find_ticket(ticket) {
            Some(i) => {
                proof {
                    lemma_ticket_lookup(self.slots@, i as int);
                }
                match &self.slots[i].pages {
                    Some(v) => PollResult::Ready(ZipPageIndex { entries: copy_pages(v) }),
                    None => PollResult::Building,
                }
            },
            None => {
                proof {
                    lemma_ticket_absent(self.slots@, ticket);
                }
                PollResult::Building
            },
        }
    }
}

} // verus!
