//! The cache of decoded stage-detail pages: pages are decoded on a miss, kept while they
//! fit in a byte budget, and evicted least recently used first.
use vstd::prelude::*;
use std::collections::{HashMap, HashSet};
use crate::konata::telemetry::KonataDetailCacheTelemetry;

verus! {

/// What a request for a detail page finds: the decoded page, a decode still to come, or
/// the reason the page cannot be had.
pub enum KonataDetailQuery<P> {
    Ready(P),
    Pending,
    Unavailable(String),
}

/// A decoded page held by the cache, with its decoded size and the clock tick of its last
/// use.
pub struct CacheEntry<P> {
    pub page_id: u32,
    pub page: P,
    pub bytes: usize,
    pub last_use: u64,
}

/// The decoded pages of a detail store, with the pages waiting for a decode, the pages
/// being decoded, the pages that failed to decode, and the cache counters.
pub struct DetailCache<P> {
    pub budget_bytes: usize,
    pub resident_bytes: usize,
    pub clock: u64,
    pub entries: Vec<CacheEntry<P>>,
    pub pending: HashSet<u32>,
    pub decoding: HashSet<u32>,
    pub errors: HashMap<u32, String>,
    pub hits: u64,
    pub misses: u64,
    pub evictions: u64,
    pub decode_errors: u64,
}

/// No page is held twice.
pub open spec fn ids_distinct<P>(s: Seq<CacheEntry<P>>) -> bool {
    forall|i: int, j: int| 0 <= i < j < s.len() ==> (#[trigger] s[i]).page_id != (#[trigger] s[j]).page_id
}

/// Some entry holds the page.
pub open spec fn holds<P>(s: Seq<CacheEntry<P>>, page_id: u32) -> bool {
    exists|i: int| 0 <= i < s.len() && (#[trigger] s[i]).page_id == page_id
}

/// The held pages by page id.
pub open spec fn entry_map<P>(s: Seq<CacheEntry<P>>) -> Map<u32, CacheEntry<P>> {
    Map::new(
        |page_id: u32| holds(s, page_id),
        |page_id: u32| s[choose|i: int| 0 <= i < s.len() && (#[trigger] s[i]).page_id == page_id],
    )
}

/// The decoded sizes of the entries, summed.
pub open spec fn entries_bytes<P>(s: Seq<CacheEntry<P>>) -> int
    decreases s.len(),
{
    if s.len() == 0 {
        0
    } else {
        entries_bytes(s.drop_last()) + s.last().bytes
    }
}

/// `a + b`, or the largest `u64` where that overflows.
pub open spec fn saturating_sum(a: int, b: int) -> u64 {
    if a + b > u64::MAX {
        u64::MAX
    } else {
        (a + b) as u64
    }
}

/// The decoded sizes of the held pages, summed.
pub open spec fn pages_bytes<P>(m: Map<u32, CacheEntry<P>>) -> int
    decreases m.len(),
{
    if m.dom().finite() && m.len() > 0 {
        let k = m.dom().choose();
        proof {
            assert(m.dom().contains(k));
            assert(m.remove(k).dom() =~= m.dom().remove(k));
        }
        m[k].bytes + pages_bytes(m.remove(k))
    } else {
        0
    }
}

/// The sum does not depend on which page is taken first: it is any held page's size plus
/// the sum over the others.
pub proof fn lemma_pages_bytes_remove<P>(m: Map<u32, CacheEntry<P>>, k: u32)
    requires
        m.dom().finite(),
        m.contains_key(k),
    ensures
        pages_bytes(m) == m[k].bytes + pages_bytes(m.remove(k)),
    decreases m.len(),
{
    let c = m.dom().choose();
    assert(m.dom().contains(c));
    assert(m.remove(k).dom() =~= m.dom().remove(k));
    assert(m.remove(c).dom() =~= m.dom().remove(c));
    if c != k {
        lemma_pages_bytes_remove(m.remove(c), k);
        lemma_pages_bytes_remove(m.remove(k), c);
        assert(m.remove(c).remove(k) =~= m.remove(k).remove(c));
    }
}

/// The sum is never negative.
pub proof fn lemma_pages_bytes_nonneg<P>(m: Map<u32, CacheEntry<P>>)
    ensures
        pages_bytes(m) >= 0,
    decreases m.len(),
{
    if m.dom().finite() && m.len() > 0 {
        let k = m.dom().choose();
        assert(m.dom().contains(k));
        assert(m.remove(k).dom() =~= m.dom().remove(k));
        lemma_pages_bytes_nonneg(m.remove(k));
    }
}

/// The sum over the entries is the sum over the pages they hold.
proof fn lemma_entries_bytes_map<P>(s: Seq<CacheEntry<P>>)
    requires
        ids_distinct(s),
    ensures
        entries_bytes(s) == pages_bytes(entry_map(s)),
    decreases s.len(),
{
    if s.len() == 0 {
        assert(entry_map(s) =~= Map::<u32, CacheEntry<P>>::empty());
    } else {
        let t = s.drop_last();
        let e = s.last();
        assert(ids_distinct(t));
        lemma_entries_bytes_map(t);
        if entry_map(t).contains_key(e.page_id) {
            let j = lemma_entry_of(t, e.page_id);
            assert(s[j].page_id != s[s.len() - 1].page_id);
        }
        assert(t.push(e) =~= s);
        lemma_push_entry(t, e);
        lemma_map_len(t);
        let m = entry_map(s);
        lemma_pages_bytes_remove(m, e.page_id);
        assert(m.remove(e.page_id) =~= entry_map(t));
    }
}

impl<P> DetailCache<P> {
    /// No page is held twice, and the resident size is the sum of the held pages' sizes.
    pub open spec fn wf(&self) -> bool {
        &&& ids_distinct(self.entries@)
        &&& self.resident_bytes == entries_bytes(self.entries@)
    }

    /// The held pages by page id.
    pub open spec fn pages(&self) -> Map<u32, CacheEntry<P>> {
        entry_map(self.entries@)
    }

    /// The resident size is the sum of the held pages' decoded sizes, and the held pages
    /// are finitely many.
    pub proof fn lemma_resident_bytes(&self)
        requires
            self.wf(),
        ensures
            self.pages().dom().finite(),
            self.resident_bytes == pages_bytes(self.pages()),
    {
        lemma_map_len(self.entries@);
        lemma_entries_bytes_map(self.entries@);
    }
}

/// The entry at `i` is the one the map gives for its page.
proof fn lemma_entry_at<P>(s: Seq<CacheEntry<P>>, i: int)
    requires
        ids_distinct(s),
        0 <= i < s.len(),
    ensures
        entry_map(s).contains_key(s[i].page_id),
        entry_map(s)[s[i].page_id] == s[i],
{
    assert(holds(s, s[i].page_id));
    let j = choose|j: int| 0 <= j < s.len() && (#[trigger] s[j]).page_id == s[i].page_id;
    if j != i {
        if j < i {
            assert(s[j].page_id != s[i].page_id);
        } else {
            assert(s[i].page_id != s[j].page_id);
        }
    }
}

/// Every held page is the entry at some index.
proof fn lemma_entry_of<P>(s: Seq<CacheEntry<P>>, page_id: u32) -> (i: int)
    requires
        ids_distinct(s),
        entry_map(s).contains_key(page_id),
    ensures
        0 <= i < s.len(),
        s[i].page_id == page_id,
        entry_map(s)[page_id] == s[i],
{
    let i = choose|i: int| 0 <= i < s.len() && (#[trigger] s[i]).page_id == page_id;
    lemma_entry_at(s, i);
    i
}

/// Replacing an entry by one of the same page replaces that page in the map.
proof fn lemma_update_entry<P>(s: Seq<CacheEntry<P>>, i: int, e: CacheEntry<P>)
    requires
        ids_distinct(s),
        0 <= i < s.len(),
        e.page_id == s[i].page_id,
    ensures
        ids_distinct(s.update(i, e)),
        entry_map(s.update(i, e)) == entry_map(s).insert(e.page_id, e),
        entries_bytes(s.update(i, e)) == entries_bytes(s) - s[i].bytes + e.bytes,
{
    let t = s.update(i, e);
    assert forall|a: int, b: int| 0 <= a < b < t.len() implies (#[trigger] t[a]).page_id != (#[trigger] t[b]).page_id by {
        assert(s[a].page_id != s[b].page_id);
    }
    assert forall|p: u32| #[trigger] entry_map(t).contains_key(p) == entry_map(s).insert(e.page_id, e).contains_key(p) by {
        if holds(t, p) {
            let j = choose|j: int| 0 <= j < t.len() && (#[trigger] t[j]).page_id == p;
            assert(s[j].page_id == p || j == i);
        }
        if holds(s, p) {
            let j = choose|j: int| 0 <= j < s.len() && (#[trigger] s[j]).page_id == p;
            assert(t[j].page_id == p);
        }
        if p == e.page_id {
            assert(t[i].page_id == p);
        }
    }
    assert forall|p: u32| #[trigger] entry_map(t).contains_key(p) implies entry_map(t)[p] == entry_map(s).insert(
        e.page_id,
        e,
    )[p] by {
        let j = lemma_entry_of(t, p);
        if j != i {
            lemma_entry_at(s, j);
        }
    }
    assert(entry_map(t) =~= entry_map(s).insert(e.page_id, e));
    lemma_update_bytes(s, i, e);
}

proof fn lemma_update_bytes<P>(s: Seq<CacheEntry<P>>, i: int, e: CacheEntry<P>)
    requires
        0 <= i < s.len(),
    ensures
        entries_bytes(s.update(i, e)) == entries_bytes(s) - s[i].bytes + e.bytes,
    decreases s.len(),
{
    let t = s.update(i, e);
    if i == s.len() - 1 {
        assert(t.drop_last() =~= s.drop_last());
    } else {
        lemma_update_bytes(s.drop_last(), i, e);
        assert(t.drop_last() =~= s.drop_last().update(i, e));
    }
}

/// Appending an entry of a page not held adds that page to the map.
proof fn lemma_push_entry<P>(s: Seq<CacheEntry<P>>, e: CacheEntry<P>)
    requires
        ids_distinct(s),
        !entry_map(s).contains_key(e.page_id),
    ensures
        ids_distinct(s.push(e)),
        entry_map(s.push(e)) == entry_map(s).insert(e.page_id, e),
        entries_bytes(s.push(e)) == entries_bytes(s) + e.bytes,
{
    let t = s.push(e);
    assert forall|a: int, b: int| 0 <= a < b < t.len() implies (#[trigger] t[a]).page_id != (#[trigger] t[b]).page_id by {
        if b == s.len() {
            assert(t[a] == s[a]);
            if s[a].page_id == e.page_id {
                assert(holds(s, e.page_id));
            }
        } else {
            assert(s[a].page_id != s[b].page_id);
        }
    }
    assert forall|p: u32| #[trigger] entry_map(t).contains_key(p) == entry_map(s).insert(e.page_id, e).contains_key(p) by {
        if holds(t, p) {
            let j = choose|j: int| 0 <= j < t.len() && (#[trigger] t[j]).page_id == p;
            if j < s.len() {
                assert(s[j].page_id == p);
            }
        }
        if holds(s, p) {
            let j = choose|j: int| 0 <= j < s.len() && (#[trigger] s[j]).page_id == p;
            assert(t[j].page_id == p);
        }
        if p == e.page_id {
            assert(t[s.len() as int].page_id == p);
        }
    }
    assert forall|p: u32| #[trigger] entry_map(t).contains_key(p) implies entry_map(t)[p] == entry_map(s).insert(
        e.page_id,
        e,
    )[p] by {
        let j = lemma_entry_of(t, p);
        if j < s.len() {
            lemma_entry_at(s, j);
        }
    }
    assert(entry_map(t) =~= entry_map(s).insert(e.page_id, e));
    assert(t.drop_last() =~= s);
}

/// Removing the entry at `i` removes its page from the map.
proof fn lemma_remove_entry<P>(s: Seq<CacheEntry<P>>, i: int)
    requires
        ids_distinct(s),
        0 <= i < s.len(),
    ensures
        ids_distinct(s.remove(i)),
        entry_map(s.remove(i)) == entry_map(s).remove(s[i].page_id),
        entries_bytes(s.remove(i)) == entries_bytes(s) - s[i].bytes,
{
    let t = s.remove(i);
    let id = s[i].page_id;
    assert forall|a: int, b: int| 0 <= a < b < t.len() implies (#[trigger] t[a]).page_id != (#[trigger] t[b]).page_id by {
        let a2 = if a < i { a } else { a + 1 };
        let b2 = if b < i { b } else { b + 1 };
        assert(t[a] == s[a2] && t[b] == s[b2]);
        assert(s[a2].page_id != s[b2].page_id);
    }
    assert forall|p: u32| #[trigger] entry_map(t).contains_key(p) == entry_map(s).remove(id).contains_key(p) by {
        if holds(t, p) {
            let j = choose|j: int| 0 <= j < t.len() && (#[trigger] t[j]).page_id == p;
            let j2 = if j < i { j } else { j + 1 };
            assert(t[j] == s[j2]);
            if p == id {
                if j2 < i {
                    assert(s[j2].page_id != s[i].page_id);
                } else {
                    assert(s[i].page_id != s[j2].page_id);
                }
            }
        }
        if holds(s, p) && p != id {
            let j = choose|j: int| 0 <= j < s.len() && (#[trigger] s[j]).page_id == p;
            let j2 = if j < i { j } else { j - 1 };
            assert(t[j2] == s[j]);
        }
    }
    assert forall|p: u32| #[trigger] entry_map(t).contains_key(p) implies entry_map(t)[p] == entry_map(s).remove(id)[p] by {
        let j = lemma_entry_of(t, p);
        let j2 = if j < i { j } else { j + 1 };
        assert(t[j] == s[j2]);
        lemma_entry_at(s, j2);
    }
    assert(entry_map(t) =~= entry_map(s).remove(id));
    lemma_remove_bytes(s, i);
}

proof fn lemma_remove_bytes<P>(s: Seq<CacheEntry<P>>, i: int)
    requires
        0 <= i < s.len(),
    ensures
        entries_bytes(s.remove(i)) == entries_bytes(s) - s[i].bytes,
    decreases s.len(),
{
    if i == s.len() - 1 {
        assert(s.remove(i) =~= s.drop_last());
    } else {
        lemma_remove_bytes(s.drop_last(), i);
        assert(s.remove(i) =~= s.drop_last().remove(i).push(s.last()));
        assert(s.remove(i).drop_last() =~= s.drop_last().remove(i));
    }
}

/// The number of held pages is the number of entries.
proof fn lemma_map_len<P>(s: Seq<CacheEntry<P>>)
    requires
        ids_distinct(s),
    ensures
        entry_map(s).dom().finite(),
        entry_map(s).len() == s.len(),
{
    let ids = s.map_values(|e: CacheEntry<P>| e.page_id);
    assert forall|a: int, b: int| 0 <= a < ids.len() && 0 <= b < ids.len() && a != b implies ids[a] != ids[b] by {
        if a < b {
            assert(s[a].page_id != s[b].page_id);
        } else {
            assert(s[b].page_id != s[a].page_id);
        }
    }
    assert(ids.no_duplicates());
    ids.unique_seq_to_set();
    assert forall|p: u32| #[trigger] entry_map(s).dom().contains(p) == ids.to_set().contains(p) by {
        if holds(s, p) {
            let j = choose|j: int| 0 <= j < s.len() && (#[trigger] s[j]).page_id == p;
            assert(ids[j] == p);
        }
        if ids.to_set().contains(p) {
            let j = choose|j: int| 0 <= j < ids.len() && ids[j] == p;
            assert(s[j].page_id == p);
        }
    }
    assert(entry_map(s).dom() =~= ids.to_set());
}

/// The clock after one tick: it wraps to 0 after the largest `u64`.
pub open spec fn next_tick(clock: u64) -> u64 {
    if clock == u64::MAX {
        0
    } else {
        (clock + 1) as u64
    }
}

/// `after` is a cache whose held pages were `before` and from which pages were evicted
/// to fit the budget: every page still held is held unchanged, the protected page stays,
/// every evicted page was used no later than any page kept but the protected one, each
/// eviction is counted, and afterwards the resident size fits the budget unless at most
/// one page is left.
pub open spec fn evicted_to_budget<P>(
    before: Map<u32, CacheEntry<P>>,
    before_evictions: u64,
    after: DetailCache<P>,
    protected: Option<u32>,
) -> bool {
    &&& after.pages().submap_of(before)
    &&& (protected matches Some(p) ==> (before.contains_key(p) ==> after.pages().contains_key(p)))
    &&& forall|gone: u32, kept: u32|
        #![trigger before.contains_key(gone), after.pages().contains_key(kept)]
        before.contains_key(gone) && !after.pages().contains_key(gone) && after.pages().contains_key(kept)
            && Some(kept) != protected ==> Some(gone) != protected && before[gone].last_use <= before[kept].last_use
    &&& after.evictions == saturating_sum(before_evictions as int, before.len() - after.pages().len())
    &&& after.resident_bytes == pages_bytes(after.pages())
    &&& after.resident_bytes <= after.budget_bytes || after.pages().len() <= 1
}

/// `after` is `before` with `page` of `bytes` decoded bytes inserted under `page_id` as
/// the most recently used page, the page no longer waiting, being decoded or failed, and
/// then pages evicted to fit the budget, the new page protected.
pub open spec fn inserted<P>(before: DetailCache<P>, after: DetailCache<P>, page_id: u32, page: P, bytes: usize) -> bool {
    let entry = CacheEntry { page_id, page, bytes, last_use: after.clock };
    &&& after.clock == next_tick(before.clock)
    &&& after.pages().contains_key(page_id)
    &&& after.pages()[page_id] == entry
    &&& evicted_to_budget(before.pages().insert(page_id, entry), before.evictions, after, Some(page_id))
    &&& after.pending@ == before.pending@.remove(page_id)
    &&& after.decoding@ == before.decoding@.remove(page_id)
    &&& after.errors@ == before.errors@.remove(page_id)
    &&& after.budget_bytes == before.budget_bytes
    &&& after.hits == before.hits
    &&& after.misses == before.misses
    &&& after.decode_errors == before.decode_errors
}

/// `after` is `before` with the page's decode failed with `error`: the page no longer
/// waits or is being decoded, its error is kept, and the failure is counted.
pub open spec fn failed<P>(before: DetailCache<P>, after: DetailCache<P>, page_id: u32, error: String) -> bool {
    &&& after.pending@ == before.pending@.remove(page_id)
    &&& after.decoding@ == before.decoding@.remove(page_id)
    &&& after.errors@ == before.errors@.insert(page_id, error)
    &&& after.decode_errors == saturating_sum(before.decode_errors as int, 1)
    &&& after.entries@ == before.entries@
    &&& after.budget_bytes == before.budget_bytes
    &&& after.resident_bytes == before.resident_bytes
    &&& after.clock == before.clock
    &&& after.hits == before.hits
    &&& after.misses == before.misses
    &&& after.evictions == before.evictions
}

/// Sizes are never negative.
proof fn lemma_bytes_nonneg<P>(s: Seq<CacheEntry<P>>)
    ensures
        entries_bytes(s) >= 0,
    decreases s.len(),
{
    if s.len() > 0 {
        lemma_bytes_nonneg(s.drop_last());
    }
}

/// The index of the least recently used entry of a page other than `protected` (the
/// first such on a tie), if there is one.
fn least_recent<P>(entries: &Vec<CacheEntry<P>>, protected: Option<u32>) -> (found: Option<usize>)
    ensures
        found matches Some(v) ==> v < entries@.len() && Some(entries@[v as int].page_id) != protected && forall|j: int|
            0 <= j < entries@.len() && Some((#[trigger] entries@[j]).page_id) != protected ==> entries@[v as int].last_use
                <= entries@[j].last_use,
        found is None ==> forall|j: int| 0 <= j < entries@.len() ==> Some((#[trigger] entries@[j]).page_id) == protected,
{
    let mut best: Option<usize> = None;
    let mut i: usize = 0;
    while i < entries.len()
        invariant
            i <= entries@.len(),
            best matches Some(v) ==> v < i && Some(entries@[v as int].page_id) != protected && forall|j: int|
                0 <= j < i && Some((#[trigger] entries@[j]).page_id) != protected ==> entries@[v as int].last_use
                    <= entries@[j].last_use,
            best is None ==> forall|j: int| 0 <= j < i ==> Some((#[trigger] entries@[j]).page_id) == protected,
        decreases entries@.len() - i,
    {
        let candidate = match protected {
            Some(p) => entries[i].page_id != p,
            None => true,
        };
        if candidate {
            match best {
                Some(v) => {
                    if entries[i].last_use < entries[v].last_use {
                        best = Some(i);
                    }
                },
                None => {
                    best = Some(i);
                },
            }
        }
        i = i + 1;
    }
    best
}

/// The index of the entry that holds the page, if any.
fn position<P>(entries: &Vec<CacheEntry<P>>, page_id: u32) -> (found: Option<usize>)
    ensures
        found matches Some(i) ==> i < entries@.len() && entries@[i as int].page_id == page_id,
        found is None ==> !holds(entries@, page_id),
{
    let mut i: usize = 0;
    while i < entries.len()
        invariant
            i <= entries@.len(),
            forall|j: int| 0 <= j < i ==> (#[trigger] entries@[j]).page_id != page_id,
        decreases entries@.len() - i,
    {
        if entries[i].page_id == page_id {
            return Some(i);
        }
        i = i + 1;
    }
    None
}

impl<P: Clone> DetailCache<P> {
    /// Settles a blocking request once the page's decode has run: a decoded page of
    /// `bytes` bytes is held (as a copy) and returned; a failed decode is recorded and its
    /// error returned.
    pub fn resolve_decode(&mut self, page_id: u32, decoded: Result<(P, usize), String>) -> (q: KonataDetailQuery<P>)
        requires
            old(self).wf(),
            decoded matches Ok((_, bytes)) ==> old(self).resident_bytes + bytes <= usize::MAX,
        ensures
            final(self).wf(),
            match decoded {
                Ok((page, bytes)) => {
                    &&& q == KonataDetailQuery::<P>::Ready(page)
                    &&& inserted(*old(self), *final(self), page_id, final(self).pages()[page_id].page, bytes)
                    &&& cloned(page, final(self).pages()[page_id].page)
                },
                Err(error) => {
                    &&& q == KonataDetailQuery::<P>::Unavailable(error)
                    &&& failed(*old(self), *final(self), page_id, error)
                },
            },
    {
        match decoded {
            Ok((page, bytes)) => {
                self.insert(page_id, page.clone(), bytes);
                KonataDetailQuery::Ready(page)
            },
            Err(error) => {
                self.fail(page_id, error.clone());
                KonataDetailQuery::Unavailable(error)
            },
        }
    }

    /// Looks a page up. A held page is a hit: it becomes the most recently used and a
    /// copy is returned. A page that failed to decode is unavailable with its error. A
    /// page already waiting for a decode stays pending; any other page is a miss and
    /// starts waiting.
    pub fn query(&mut self, page_id: u32) -> (q: KonataDetailQuery<P>)
        requires
            old(self).wf(),
        ensures
            final(self).wf(),
            final(self).clock == next_tick(old(self).clock),
            final(self).budget_bytes == old(self).budget_bytes,
            final(self).resident_bytes == old(self).resident_bytes,
            final(self).decoding@ == old(self).decoding@,
            final(self).errors@ == old(self).errors@,
            final(self).evictions == old(self).evictions,
            final(self).decode_errors == old(self).decode_errors,
            old(self).pages().contains_key(page_id) ==> {
                &&& final(self).pages() == old(self).pages().insert(
                    page_id,
                    (CacheEntry { last_use: final(self).clock, ..old(self).pages()[page_id] }),
                )
                &&& final(self).hits == saturating_sum(old(self).hits as int, 1)
                &&& final(self).misses == old(self).misses
                &&& final(self).pending@ == old(self).pending@
                &&& q matches KonataDetailQuery::Ready(p) && cloned(old(self).pages()[page_id].page, p)
            },
            !old(self).pages().contains_key(page_id) ==> {
                &&& final(self).pages() == old(self).pages()
                &&& final(self).hits == old(self).hits
                &&& if old(self).errors@.contains_key(page_id) {
                    &&& q == KonataDetailQuery::<P>::Unavailable(old(self).errors@[page_id])
                    &&& final(self).misses == old(self).misses
                    &&& final(self).pending@ == old(self).pending@
                } else if old(self).pending@.contains(page_id) {
                    &&& q is Pending
                    &&& final(self).misses == old(self).misses
                    &&& final(self).pending@ == old(self).pending@
                } else {
                    &&& q is Pending
                    &&& final(self).misses == saturating_sum(old(self).misses as int, 1)
                    &&& final(self).pending@ == old(self).pending@.insert(page_id)
                }
            },
    {
        broadcast use vstd::std_specs::hash::group_hash_axioms;

        self.clock = self.clock.wrapping_add(1);
        if let Some(i) = position(&self.entries, page_id) {
            let ghost s = self.entries@;
            let mut entry = self.entries.remove(i);
            entry.last_use = self.clock;
            let page = entry.page.clone();
            let ghost e = entry;
            self.entries.insert(i, entry);
            proof {
                assert(s.remove(i as int).insert(i as int, e) =~= s.update(i as int, e));
                lemma_entry_at(s, i as int);
                lemma_update_entry(s, i as int, e);
            }
            self.hits = self.hits.saturating_add(1);
            return KonataDetailQuery::Ready(page);
        }
        proof {
            assert(!entry_map(self.entries@).contains_key(page_id));
        }
        if let Some(error) = self.errors.get(&page_id) {
            return KonataDetailQuery::Unavailable(error.clone());
        }
        if self.pending.contains(&page_id) {
            return KonataDetailQuery::Pending;
        }
        self.misses = self.misses.saturating_add(1);
        self.pending.insert(page_id);
        KonataDetailQuery::Pending
    }
    /// Looks a page up and, when it is pending, claims its decode: the lookup is `query`'s,
    /// and the claim succeeds only for the first request that finds the page pending and
    /// not yet being decoded.
    pub fn query_claiming(&mut self, page_id: u32) -> (result: (KonataDetailQuery<P>, bool))
        requires
            old(self).wf(),
        ensures
            final(self).wf(),
            result.1 ==> result.0 is Pending,
            !old(self).pages().contains_key(page_id) && !old(self).errors@.contains_key(page_id) ==> {
                &&& result.0 is Pending
                &&& result.1 == !old(self).decoding@.contains(page_id)
                &&& final(self).decoding@ == old(self).decoding@.insert(page_id)
                &&& final(self).pending@ == old(self).pending@.insert(page_id)
                &&& final(self).pages() == old(self).pages()
            },
            old(self).pages().contains_key(page_id) ==> {
                &&& result.0 matches KonataDetailQuery::Ready(p) && cloned(old(self).pages()[page_id].page, p)
                &&& !result.1
                &&& final(self).decoding@ == old(self).decoding@
            },
            !old(self).pages().contains_key(page_id) && old(self).errors@.contains_key(page_id) ==> {
                &&& result.0 == KonataDetailQuery::<P>::Unavailable(old(self).errors@[page_id])
                &&& !result.1
                &&& final(self).decoding@ == old(self).decoding@
            },
            final(self).clock == next_tick(old(self).clock),
            final(self).errors@ == old(self).errors@,
            final(self).budget_bytes == old(self).budget_bytes,
            final(self).resident_bytes == old(self).resident_bytes,
    {
        broadcast use vstd::std_specs::hash::group_hash_axioms;

        let query = self.query(page_id);
        let claimed = match query {
            KonataDetailQuery::Pending => self.claim_decode(page_id),
            _ => false,
        };
        proof {
            if !old(self).pages().contains_key(page_id) && !old(self).errors@.contains_key(page_id) {
                assert(self.pending@ =~= old(self).pending@.insert(page_id));
                assert(self.decoding@ =~= old(self).decoding@.insert(page_id));
            }
        }
        (query, claimed)
    }
}

impl<P> DetailCache<P> {
    /// Records that the page failed to decode: it stops waiting and is unavailable with
    /// the error from now on.
    pub fn fail(&mut self, page_id: u32, error: String)
        requires
            old(self).wf(),
        ensures
            final(self).wf(),
            failed(*old(self), *final(self), page_id, error),
    {
        broadcast use vstd::std_specs::hash::group_hash_axioms;

        self.pending.remove(&page_id);
        self.decoding.remove(&page_id);
        self.errors.insert(page_id, error);
        self.decode_errors = self.decode_errors.saturating_add(1);
    }

    /// Whether this miss owns the decode of the page: only a page that waits, is neither
    /// held nor failed, and is not being decoded yet is claimed, and then it is being
    /// decoded, so a second claim fails.
    pub fn claim_decode(&mut self, page_id: u32) -> (claimed: bool)
        requires
            old(self).wf(),
        ensures
            final(self).wf(),
            claimed == (old(self).pending@.contains(page_id) && !old(self).pages().contains_key(page_id)
                && !old(self).errors@.contains_key(page_id) && !old(self).decoding@.contains(page_id)),
            final(self).decoding@ == if old(self).pending@.contains(page_id) && !old(self).pages().contains_key(page_id)
                && !old(self).errors@.contains_key(page_id) {
                old(self).decoding@.insert(page_id)
            } else {
                old(self).decoding@
            },
            final(self).entries@ == old(self).entries@,
            final(self).pending@ == old(self).pending@,
            final(self).errors@ == old(self).errors@,
            final(self).budget_bytes == old(self).budget_bytes,
            final(self).resident_bytes == old(self).resident_bytes,
            final(self).clock == old(self).clock,
            final(self).hits == old(self).hits,
            final(self).misses == old(self).misses,
            final(self).evictions == old(self).evictions,
            final(self).decode_errors == old(self).decode_errors,
    {
        broadcast use vstd::std_specs::hash::group_hash_axioms;

        let held = match position(&self.entries, page_id) {
            Some(i) => {
                proof {
                    lemma_entry_at(self.entries@, i as int);
                }
                true
            },
            None => false,
        };
        self.pending.contains(&page_id) && !held && !self.errors.contains_key(&page_id) && self.decoding.insert(page_id)
    }
}

impl<P> DetailCache<P> {
    /// Evicts least recently used pages, never the protected one, while the resident size
    /// exceeds the budget and more than one page is held.
    pub fn evict_to_budget(&mut self, protected: Option<u32>)
        requires
            old(self).wf(),
        ensures
            final(self).wf(),
            evicted_to_budget(old(self).pages(), old(self).evictions, *final(self), protected),
            final(self).budget_bytes == old(self).budget_bytes,
            final(self).clock == old(self).clock,
            final(self).pending@ == old(self).pending@,
            final(self).decoding@ == old(self).decoding@,
            final(self).errors@ == old(self).errors@,
            final(self).hits == old(self).hits,
            final(self).misses == old(self).misses,
            final(self).decode_errors == old(self).decode_errors,
    {
        let ghost before = self.pages();
        let ghost before_len = self.entries@.len();
        proof {
            lemma_map_len(self.entries@);
        }
        let mut stuck = false;
        while !stuck && self.resident_bytes > self.budget_bytes && self.entries.len() > 1
            invariant
                self.wf(),
                self.budget_bytes == old(self).budget_bytes,
                self.clock == old(self).clock,
                self.pending@ == old(self).pending@,
                self.decoding@ == old(self).decoding@,
                self.errors@ == old(self).errors@,
                self.hits == old(self).hits,
                self.misses == old(self).misses,
                self.decode_errors == old(self).decode_errors,
                before == old(self).pages(),
                before.len() == before_len,
                self.entries@.len() <= before_len,
                self.pages().submap_of(before),
                protected matches Some(p) ==> (before.contains_key(p) ==> self.pages().contains_key(p)),
                forall|gone: u32, kept: u32|
                    #![trigger before.contains_key(gone), self.pages().contains_key(kept)]
                    before.contains_key(gone) && !self.pages().contains_key(gone) && self.pages().contains_key(kept)
                        && Some(kept) != protected ==> Some(gone) != protected && before[gone].last_use
                        <= before[kept].last_use,
                self.evictions == saturating_sum(old(self).evictions as int, before_len - self.entries@.len()),
                stuck ==> forall|j: int| 0 <= j < self.entries@.len() ==> Some((#[trigger] self.entries@[j]).page_id) == protected,
            decreases self.entries@.len() + if stuck { 0int } else { 1int },
        {
            match least_recent(&self.entries, protected) {
                Some(v) => {
                    let ghost s = self.entries@;
                    let ghost current = self.pages();
                    let ghost victim = s[v as int];
                    proof {
                        lemma_entry_at(s, v as int);
                        lemma_remove_entry(s, v as int);
                        lemma_bytes_nonneg(s.remove(v as int));
                    }
                    let entry = self.entries.remove(v);
                    self.resident_bytes = self.resident_bytes.saturating_sub(entry.bytes);
                    self.evictions = self.evictions.saturating_add(1);
                    proof {
                        assert(self.pages() == current.remove(victim.page_id));
                        assert(self.pages().submap_of(before)) by {
                            assert forall|k: u32| #[trigger] self.pages().contains_key(k) implies before.contains_key(k)
                                && self.pages()[k] == before[k] by {
                                assert(current.contains_key(k));
                            }
                        }
                        assert forall|gone: u32, kept: u32|
                            #![trigger before.contains_key(gone), self.pages().contains_key(kept)]
                            before.contains_key(gone) && !self.pages().contains_key(gone) && self.pages().contains_key(kept)
                                && Some(kept) != protected implies Some(gone) != protected && before[gone].last_use
                            <= before[kept].last_use by {
                            assert(current.contains_key(kept));
                            if gone == victim.page_id {
                                let j = lemma_entry_of(s, kept);
                                assert(Some(s[j].page_id) != protected);
                                assert(before.contains_key(kept));
                                assert(before[kept] == current[kept]);
                                assert(before[gone] == current[gone]);
                            } else {
                                assert(!current.contains_key(gone));
                            }
                        }
                    }
                },
                None => {
                    stuck = true;
                },
            }
        }
        proof {
            lemma_map_len(self.entries@);
            self.lemma_resident_bytes();
            if self.entries@.len() > 1 && !(self.resident_bytes <= self.budget_bytes) {
                let s = self.entries@;
                assert(s[0].page_id != s[1].page_id);
                assert(Some(s[0].page_id) == protected);
                assert(Some(s[1].page_id) == protected);
            }
        }
    }

    /// Holds a decoded page of `bytes` bytes as the most recently used page, replacing an
    /// earlier copy, and evicts other pages to fit the budget. The sizes of the pages held
    /// and of the new one are sizes of pages in memory, so their sum fits in a `usize`.
    pub fn insert(&mut self, page_id: u32, page: P, bytes: usize)
        requires
            old(self).wf(),
            old(self).resident_bytes + bytes <= usize::MAX,
        ensures
            final(self).wf(),
            inserted(*old(self), *final(self), page_id, page, bytes),
    {
        broadcast use vstd::std_specs::hash::group_hash_axioms;

        let ghost start = *self;
        self.pending.remove(&page_id);
        self.decoding.remove(&page_id);
        self.errors.remove(&page_id);
        self.clock = self.clock.wrapping_add(1);
        if let Some(i) = position(&self.entries, page_id) {
            let ghost s = self.entries@;
            proof {
                lemma_entry_at(s, i as int);
                lemma_remove_entry(s, i as int);
                lemma_bytes_nonneg(s.remove(i as int));
            }
            let previous = self.entries.remove(i);
            self.resident_bytes = self.resident_bytes.saturating_sub(previous.bytes);
            proof {
                assert(self.pages() == start.pages().remove(page_id));
            }
        } else {
            proof {
                assert(self.pages() =~= start.pages().remove(page_id));
            }
        }
        proof {
            lemma_bytes_nonneg(self.entries@);
            assert(!self.pages().contains_key(page_id));
        }
        self.resident_bytes = self.resident_bytes.saturating_add(bytes);
        let entry = CacheEntry { page_id, page, bytes, last_use: self.clock };
        let ghost e = entry;
        proof {
            lemma_push_entry(self.entries@, e);
        }
        self.entries.push(entry);
        let ghost mid = *self;
        proof {
            assert(mid.pages() =~= start.pages().insert(page_id, e));
        }
        self.evict_to_budget(Some(page_id));
        proof {
            assert(self.pages().contains_key(page_id));
            assert(mid.pages().contains_key(page_id));
            assert(self.pages()[page_id] == e);
            assert(self.clock == mid.clock);
            assert(evicted_to_budget(start.pages().insert(page_id, e), start.evictions, *self, Some(page_id)));
        }
    }

    /// Sets the budget, at least one byte, and evicts least recently used pages to fit it.
    pub fn set_budget(&mut self, budget_bytes: usize)
        requires
            old(self).wf(),
        ensures
            final(self).wf(),
            final(self).budget_bytes == if budget_bytes == 0 { 1 } else { budget_bytes },
            evicted_to_budget(old(self).pages(), old(self).evictions, *final(self), None),
            final(self).clock == old(self).clock,
            final(self).pending@ == old(self).pending@,
            final(self).decoding@ == old(self).decoding@,
            final(self).errors@ == old(self).errors@,
            final(self).hits == old(self).hits,
            final(self).misses == old(self).misses,
            final(self).decode_errors == old(self).decode_errors,
    {
        self.budget_bytes = if budget_bytes == 0 { 1 } else { budget_bytes };
        self.evict_to_budget(None);
    }

    /// An empty cache with the given byte budget.
    pub fn new(budget_bytes: usize) -> (cache: Self)
        ensures
            cache.wf(),
            cache.budget_bytes == budget_bytes,
            cache.resident_bytes == 0,
            cache.clock == 0,
            cache.pages() == Map::<u32, CacheEntry<P>>::empty(),
            cache.pending@ == Set::<u32>::empty(),
            cache.decoding@ == Set::<u32>::empty(),
            cache.errors@ == Map::<u32, String>::empty(),
            cache.hits == 0 && cache.misses == 0 && cache.evictions == 0 && cache.decode_errors == 0,
    {
        let cache = DetailCache {
            budget_bytes,
            resident_bytes: 0,
            clock: 0,
            entries: Vec::new(),
            pending: HashSet::new(),
            decoding: HashSet::new(),
            errors: HashMap::new(),
            hits: 0,
            misses: 0,
            evictions: 0,
            decode_errors: 0,
        };
        assert(cache.pages() =~= Map::<u32, CacheEntry<P>>::empty());
        cache
    }

    /// The cache counters; the encoded size and page count belong to the store and are 0.
    pub fn telemetry(&self) -> (t: KonataDetailCacheTelemetry)
        requires
            self.wf(),
        ensures
            t.budget_bytes == self.budget_bytes,
            t.encoded_bytes == 0,
            t.page_count == 0,
            t.resident_bytes == self.resident_bytes,
            t.resident_pages == self.pages().len(),
            t.pending_pages == self.pending@.len(),
            t.hits == self.hits,
            t.misses == self.misses,
            t.evictions == self.evictions,
            t.decode_errors == self.decode_errors,
    {
        broadcast use vstd::std_specs::hash::group_hash_axioms;

        proof {
            lemma_map_len(self.entries@);
        }
        KonataDetailCacheTelemetry {
            budget_bytes: self.budget_bytes,
            encoded_bytes: 0,
            page_count: 0,
            resident_bytes: self.resident_bytes,
            resident_pages: self.entries.len(),
            pending_pages: self.pending.len(),
            hits: self.hits,
            misses: self.misses,
            evictions: self.evictions,
            decode_errors: self.decode_errors,
        }
    }

    /// No page waits for a decode.
    pub fn is_idle(&self) -> (idle: bool)
        ensures
            idle == self.pending@.is_empty(),
    {
        self.pending.is_empty()
    }
}

} // verus!
