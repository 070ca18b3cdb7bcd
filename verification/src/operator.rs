//! Inline search helpers: the per-session cache behind `pdb_match` and
//! `pdb_score`.
//!
//! A search is run once per (table, column, query) and its hits are kept;
//! each row's match and score is then a lookup. Scores are `f32` BM25
//! values; the cache carries them as their IEEE-754 bit patterns (`u32`),
//! which it only stores and hands back.

use vstd::prelude::*;
use std::collections::HashMap;

use crate::vecs::reversed;

verus! {

broadcast use vstd::std_specs::hash::group_hash_axioms;

/// A search is named by its table, column and query text.
pub type SearchKeyView = (Seq<char>, Seq<char>, Seq<char>);

/// The scores of a search's hits by primary key: a later hit for the same
/// key replaces an earlier one.
pub open spec fn scores_of(hits: Seq<(i64, u32)>) -> Map<i64, u32>
    decreases hits.len(),
{
    if hits.len() == 0 {
        Map::empty()
    } else {
        scores_of(hits.drop_last()).insert(hits.last().0, hits.last().1)
    }
}

/// Whether the row with key `pk` matched the cached search `key`.
pub open spec fn cached_match(cache: Map<SearchKeyView, Map<i64, u32>>, key: SearchKeyView, pk: i64) -> bool {
    cache.contains_key(key) && cache[key].contains_key(pk)
}

/// The score bits of the row with key `pk` in the cached search `key`, or
/// 0 (the bits of `0.0`).
pub open spec fn cached_score(cache: Map<SearchKeyView, Map<i64, u32>>, key: SearchKeyView, pk: i64) -> u32 {
    if cached_match(cache, key, pk) {
        cache[key][pk]
    } else {
        0
    }
}

/// The cache after the hits of search `key` are offered to it: they are
/// kept unless that search is cached already.
pub open spec fn cache_with_results(
    cache: Map<SearchKeyView, Map<i64, u32>>,
    key: SearchKeyView,
    hits: Seq<(i64, u32)>,
) -> Map<SearchKeyView, Map<i64, u32>> {
    if cache.contains_key(key) {
        cache
    } else {
        cache.insert(key, scores_of(hits))
    }
}

struct CacheEntry {
    table_name: String,
    column_name: String,
    query: String,
    scores: HashMap<i64, u32>,
}

impl CacheEntry {
    spec fn key(&self) -> SearchKeyView {
        (self.table_name@, self.column_name@, self.query@)
    }
}

/// The cached searches of one session, and the search chosen for the
/// search operator, if any.
pub struct SearchCache {
    entries: Vec<CacheEntry>,
    current: Option<(String, String, String)>,
}

spec fn entries_map(entries: Seq<CacheEntry>) -> Map<SearchKeyView, Map<i64, u32>>
    decreases entries.len(),
{
    if entries.len() == 0 {
        Map::empty()
    } else {
        entries_map(entries.drop_last()).insert(entries.last().key(), entries.last().scores@)
    }
}

spec fn distinct_keys(entries: Seq<CacheEntry>) -> bool {
    forall|i: int, j: int|
        0 <= i < entries.len() && 0 <= j < entries.len() && i != j ==> #[trigger] entries[i].key()
            != #[trigger] entries[j].key()
}

proof fn lemma_entries_map_at(entries: Seq<CacheEntry>, i: int)
    requires
        distinct_keys(entries),
        0 <= i < entries.len(),
    ensures
        entries_map(entries).contains_key(entries[i].key()),
        entries_map(entries)[entries[i].key()] == entries[i].scores@,
    decreases entries.len(),
{
    if i < entries.len() - 1 {
        let init = entries.drop_last();
        assert(init[i] == entries[i]);
        assert(distinct_keys(init)) by {
            assert forall|a: int, b: int|
                0 <= a < init.len() && 0 <= b < init.len() && a != b implies #[trigger] init[a].key()
                != #[trigger] init[b].key() by {
                assert(init[a] == entries[a] && init[b] == entries[b]);
            }
        }
        lemma_entries_map_at(init, i);
        assert(entries[entries.len() - 1].key() != entries[i].key());
    }
}

proof fn lemma_entries_map_absent(entries: Seq<CacheEntry>, k: SearchKeyView)
    requires
        forall|i: int| 0 <= i < entries.len() ==> #[trigger] entries[i].key() != k,
    ensures
        !entries_map(entries).contains_key(k),
    decreases entries.len(),
{
    if entries.len() > 0 {
        let init = entries.drop_last();
        assert forall|i: int| 0 <= i < init.len() implies #[trigger] init[i].key() != k by {
            assert(init[i] == entries[i]);
        }
        lemma_entries_map_absent(init, k);
        assert(entries[entries.len() - 1].key() != k);
    }
}

impl View for SearchCache {
    type V = Map<SearchKeyView, Map<i64, u32>>;

    closed spec fn view(&self) -> Map<SearchKeyView, Map<i64, u32>> {
        entries_map(self.entries@)
    }
}

impl SearchCache {
    /// The search chosen by `pdb_search_init`, if any.
    pub closed spec fn current_search(&self) -> Option<SearchKeyView> {
        match self.current {
            Some((t, c, q)) => Some((t@, c@, q@)),
            None => None,
        }
    }

    /// The cache keeps one result per search.
    #[verifier::type_invariant]
    spec fn well_formed(&self) -> bool {
        distinct_keys(self.entries@)
    }

    /// An empty cache.
    pub fn new() -> (c: SearchCache)
        ensures
            c@ == Map::<SearchKeyView, Map<i64, u32>>::empty(),
            c.current_search() is None,
    {
        let c = SearchCache { entries: Vec::new(), current: None };
        assert(c@ =~= Map::<SearchKeyView, Map<i64, u32>>::empty());
        c
    }

    fn find(&self, table_name: &str, column_name: &str, query: &str) -> (found: Option<usize>)
        ensures
            match found {
                Some(i) => i < self.entries@.len() && self.entries@[i as int].key() == (
                    table_name@,
                    column_name@,
                    query@,
                ),
                None => forall|i: int|
                    0 <= i < self.entries@.len() ==> #[trigger] self.entries@[i].key() != (
                        table_name@,
                        column_name@,
                        query@,
                    ),
            },
    {
        let t = table_name.to_owned();
        let c = column_name.to_owned();
        let q = query.to_owned();
        let mut i: usize = 0;
        while i < self.entries.len()
            invariant
                i <= self.entries@.len(),
                t@ == table_name@,
                c@ == column_name@,
                q@ == query@,
                forall|j: int|
                    0 <= j < i ==> #[trigger] self.entries@[j].key() != (
                        table_name@,
                        column_name@,
                        query@,
                    ),
            decreases self.entries@.len() - i,
        {
            let e = &self.entries[i];
            if e.table_name == t && e.column_name == c && e.query == q {
                return Some(i);
            }
            i = i + 1;
        }
        None
    }
}

/// Whether the search on `table_name`.`column_name` for `query` is cached.
pub fn is_search_cached(cache: &SearchCache, table_name: &str, column_name: &str, query: &str) -> (cached: bool)
    ensures
        cached == cache@.contains_key((table_name@, column_name@, query@)),
{
    proof {
        use_type_invariant(cache);
    }
    match cache.find(table_name, column_name, query) {
        Some(i) => {
            proof {
                lemma_entries_map_at(cache.entries@, i as int);
            }
            true
        },
        None => {
            proof {
                lemma_entries_map_absent(cache.entries@, (table_name@, column_name@, query@));
            }
            false
        },
    }
}

fn scores_from_hits(hits: Vec<(i64, u32)>) -> (scores: HashMap<i64, u32>)
    ensures
        scores@ == scores_of(hits@),
{
    let ghost all = hits@;
    let n = hits.len();
    let mut pending = reversed(hits);
    let mut scores: HashMap<i64, u32> = HashMap::new();
    let mut i: usize = 0;
    while i < n
        invariant
            i <= n,
            n == all.len(),
            pending@ == all.reverse().take((n - i) as int),
            scores@ == scores_of(all.take(i as int)),
        decreases n - i,
    {
        assert(all.take(i + 1).drop_last() =~= all.take(i as int));
        assert(pending@[pending.len() - 1] == all[i as int]);
        let (pk, score) = pending.pop().unwrap();
        assert(pending@ =~= all.reverse().take((n - i - 1) as int));
        scores.insert(pk, score);
        i = i + 1;
    }
    assert(all.take(n as int) =~= all);
    scores
}

/// Caches the hits (primary key, score bits) of the search on
/// `table_name`.`column_name` for `query`, unless that search is cached
/// already: a search's results are kept from its first run.
pub fn cache_search_results(
    cache: &mut SearchCache,
    table_name: &str,
    column_name: &str,
    query: &str,
    hits: Vec<(i64, u32)>,
)
    ensures
        final(cache)@ == cache_with_results(old(cache)@, (table_name@, column_name@, query@), hits@),
        final(cache).current_search() == old(cache).current_search(),
{
    if is_search_cached(cache, table_name, column_name, query) {
        return;
    }
    proof {
        use_type_invariant(&*cache);
    }
    let scores = scores_from_hits(hits);
    let entry = CacheEntry {
        table_name: table_name.to_owned(),
        column_name: column_name.to_owned(),
        query: query.to_owned(),
        scores,
    };
    let ghost before = cache.entries@;
    let mut entries = Vec::new();
    std::mem::swap(&mut entries, &mut cache.entries);
    proof {
        if exists|i: int| 0 <= i < before.len() && #[trigger] before[i].key() == entry.key() {
            let i = choose|i: int| 0 <= i < before.len() && #[trigger] before[i].key() == entry.key();
            lemma_entries_map_at(before, i);
        }
    }
    entries.push(entry);
    assert(entries@.drop_last() =~= before);
    cache.entries = entries;
}

/// Whether the row with key `pk` matched the cached search on
/// `table_name`.`column_name` for `query`; `false` when that search is not
/// cached.
pub fn pdb_match(cache: &SearchCache, table_name: &str, column_name: &str, query: &str, pk: i64) -> (matched: bool)
    ensures
        matched == cached_match(cache@, (table_name@, column_name@, query@), pk),
{
    proof {
        use_type_invariant(cache);
    }
    match cache.find(table_name, column_name, query) {
        Some(i) => {
            proof {
                lemma_entries_map_at(cache.entries@, i as int);
            }
            cache.entries[i].scores.contains_key(&pk)
        },
        None => {
            proof {
                lemma_entries_map_absent(cache.entries@, (table_name@, column_name@, query@));
            }
            false
        },
    }
}

/// The score (as `f32` bits) of the row with key `pk` in the cached search
/// on `table_name`.`column_name` for `query`; the bits of `0.0`, which are
/// 0, when the row did not match or the search is not cached.
pub fn pdb_score_bits(cache: &SearchCache, table_name: &str, column_name: &str, query: &str, pk: i64) -> (score: u32)
    ensures
        score == cached_score(cache@, (table_name@, column_name@, query@), pk),
{
    proof {
        use_type_invariant(cache);
    }
    match cache.find(table_name, column_name, query) {
        Some(i) => {
            proof {
                lemma_entries_map_at(cache.entries@, i as int);
            }
            match cache.entries[i].scores.get(&pk) {
                Some(s) => *s,
                None => 0,
            }
        },
        None => {
            proof {
                lemma_entries_map_absent(cache.entries@, (table_name@, column_name@, query@));
            }
            0
        },
    }
}

/// Clears the search cache, forcing fresh searches. Returns `true`.
pub fn pdb_clear_cache(cache: &mut SearchCache) -> (done: bool)
    ensures
        final(cache)@ == Map::<SearchKeyView, Map<i64, u32>>::empty(),
        final(cache).current_search() is None,
        done,
{
    cache.entries = Vec::new();
    cache.current = None;
    proof {
        assert(final(cache)@ =~= Map::<SearchKeyView, Map<i64, u32>>::empty());
    }
    true
}

/// Chooses the search on `table_name`.`column_name` for `query` as the one
/// the search operator scores by. Returns `true`.
pub fn pdb_search_init(cache: &mut SearchCache, table_name: &str, column_name: &str, query: &str) -> (done: bool)
    ensures
        final(cache)@ == old(cache)@,
        final(cache).current_search() == Some((table_name@, column_name@, query@)),
        done,
{
    proof {
        use_type_invariant(&*cache);
    }
    cache.current = Some((table_name.to_owned(), column_name.to_owned(), query.to_owned()));
    true
}

/// The score (as `f32` bits) of the row with key `pk` in the search chosen
/// by `pdb_search_init`; 0 (the bits of `0.0`) when the row did not match
/// or no search was chosen.
pub fn pdb_operator_score_bits(cache: &SearchCache, pk: i64) -> (score: u32)
    ensures
        score == match cache.current_search() {
            Some(key) => cached_score(cache@, key, pk),
            None => 0,
        },
{
    match &cache.current {
        Some((t, c, q)) => pdb_score_bits(cache, t.as_str(), c.as_str(), q.as_str(), pk),
        None => 0,
    }
}

/// The `@@@` operator: keeps the rows whose searched column is not NULL;
/// the score of a row comes from `pdb_operator_score`.
pub fn pdb_search_operator(content: Option<&str>, query: &str) -> (keep: bool)
    ensures
        keep == content.is_some(),
{
    content.is_some()
}

/// The first `limit` hits of a search, in rank order; none when `limit`
/// is not positive.
pub fn limit_hits(hits: Vec<(i64, u32)>, limit: i32) -> (kept: Vec<(i64, u32)>)
    ensures
        kept@ == (if limit <= 0 {
            Seq::<(i64, u32)>::empty()
        } else if hits@.len() <= limit {
            hits@
        } else {
            hits@.take(limit as int)
        }),
{
    if limit <= 0 {
        return Vec::new();
    }
    let mut hits = hits;
    let bound = limit as usize;
    if hits.len() > bound {
        hits.truncate(bound);
    }
    hits
}

// ---------------------------------------------------------------------------
// Laws
// ---------------------------------------------------------------------------

/// What a session does to its search cache, apart from lookups (which
/// change nothing): a search's hits are offered, a search is chosen for
/// the operator, or the cache is cleared.
pub enum CacheEvent {
    Results { key: SearchKeyView, hits: Seq<(i64, u32)> },
    Init { key: SearchKeyView },
    Clear,
}

/// The cached searches after one event.
pub open spec fn cache_after_event(cache: Map<SearchKeyView, Map<i64, u32>>, e: CacheEvent) -> Map<SearchKeyView, Map<i64, u32>> {
    match e {
        CacheEvent::Results { key, hits } => cache_with_results(cache, key, hits),
        CacheEvent::Init { key } => cache,
        CacheEvent::Clear => Map::empty(),
    }
}

/// The cached searches after a list of events, in order.
pub open spec fn cache_after_events(cache: Map<SearchKeyView, Map<i64, u32>>, events: Seq<CacheEvent>) -> Map<SearchKeyView, Map<i64, u32>>
    decreases events.len(),
{
    if events.len() == 0 {
        cache
    } else {
        cache_after_event(cache_after_events(cache, events.drop_last()), events.last())
    }
}

/// A cached answer stays the same until the cache is cleared: once a search
/// is cached, whatever searches are cached or chosen after it, as long as
/// the cache is not cleared, every row matches and scores in it as before.
pub proof fn lemma_cached_answers_stable_until_clear(
    cache: Map<SearchKeyView, Map<i64, u32>>,
    events: Seq<CacheEvent>,
    key: SearchKeyView,
    pk: i64,
)
    requires
        cache.contains_key(key),
        forall|i: int| 0 <= i < events.len() ==> !(#[trigger] events[i] is Clear),
    ensures
        cache_after_events(cache, events).contains_key(key),
        cache_after_events(cache, events)[key] == cache[key],
        cached_match(cache_after_events(cache, events), key, pk) == cached_match(cache, key, pk),
        cached_score(cache_after_events(cache, events), key, pk) == cached_score(cache, key, pk),
    decreases events.len(),
{
    if events.len() > 0 {
        let init = events.drop_last();
        assert forall|i: int| 0 <= i < init.len() implies !(#[trigger] init[i] is Clear) by {
            assert(init[i] == events[i]);
        }
        lemma_cached_answers_stable_until_clear(cache, init, key, pk);
        assert(!(events[events.len() - 1] is Clear));
    }
}

/// A row that does not match a search scores 0.
pub proof fn lemma_unmatched_row_scores_zero(
    cache: Map<SearchKeyView, Map<i64, u32>>,
    key: SearchKeyView,
    pk: i64,
)
    requires
        !cached_match(cache, key, pk),
    ensures
        cached_score(cache, key, pk) == 0,
{
}

/// After a search's hits are cached, a row matches exactly when one of the
/// hits has its key, and its score is that of the last such hit.
pub proof fn lemma_cached_hits_decide_matches(
    cache: Map<SearchKeyView, Map<i64, u32>>,
    key: SearchKeyView,
    hits: Seq<(i64, u32)>,
    pk: i64,
)
    requires
        !cache.contains_key(key),
    ensures
        cached_match(cache_with_results(cache, key, hits), key, pk) <==> exists|i: int|
            0 <= i < hits.len() && #[trigger] hits[i].0 == pk,
        forall|i: int|
            0 <= i < hits.len() && #[trigger] hits[i].0 == pk && (forall|j: int|
                i < j < hits.len() ==> hits[j].0 != pk) ==> cached_score(
                cache_with_results(cache, key, hits),
                key,
                pk,
            ) == hits[i].1,
        forall|other: SearchKeyView|
            other != key ==> cached_match(cache_with_results(cache, key, hits), other, pk)
                == cached_match(cache, other, pk) && cached_score(
                cache_with_results(cache, key, hits),
                other,
                pk,
            ) == cached_score(cache, other, pk),
{
    lemma_scores_of(hits, pk);
}

/// Offering hits for a search that is already cached changes nothing.
pub proof fn lemma_cached_search_not_replaced(
    cache: Map<SearchKeyView, Map<i64, u32>>,
    key: SearchKeyView,
    hits: Seq<(i64, u32)>,
)
    requires
        cache.contains_key(key),
    ensures
        cache_with_results(cache, key, hits) == cache,
{
}

/// The score map of a list of hits holds a key exactly when a hit has it,
/// with the score of the last hit that has it.
pub proof fn lemma_scores_of(hits: Seq<(i64, u32)>, pk: i64)
    ensures
        scores_of(hits).contains_key(pk) <==> exists|i: int| 0 <= i < hits.len() && #[trigger] hits[i].0 == pk,
        forall|i: int|
            0 <= i < hits.len() && #[trigger] hits[i].0 == pk && (forall|j: int|
                i < j < hits.len() ==> hits[j].0 != pk) ==> scores_of(hits)[pk] == hits[i].1,
{
    lemma_scores_of_dom(hits, pk);
    assert forall|i: int|
        0 <= i < hits.len() && #[trigger] hits[i].0 == pk && (forall|j: int|
            i < j < hits.len() ==> hits[j].0 != pk) implies scores_of(hits)[pk] == hits[i].1 by {
        lemma_scores_of_last(hits, pk, i);
    }
}

proof fn lemma_scores_of_dom(hits: Seq<(i64, u32)>, pk: i64)
    ensures
        scores_of(hits).contains_key(pk) <==> exists|i: int| 0 <= i < hits.len() && #[trigger] hits[i].0 == pk,
    decreases hits.len(),
{
    if hits.len() > 0 {
        let init = hits.drop_last();
        lemma_scores_of_dom(init, pk);
        if hits.last().0 == pk {
            assert(hits[hits.len() - 1].0 == pk);
        } else {
            if scores_of(init).contains_key(pk) {
                let i = choose|i: int| 0 <= i < init.len() && #[trigger] init[i].0 == pk;
                assert(hits[i] == init[i]);
            }
            if exists|i: int| 0 <= i < hits.len() && #[trigger] hits[i].0 == pk {
                let i = choose|i: int| 0 <= i < hits.len() && #[trigger] hits[i].0 == pk;
                assert(init[i] == hits[i]);
            }
        }
    }
}

proof fn lemma_scores_of_last(hits: Seq<(i64, u32)>, pk: i64, i: int)
    requires
        0 <= i < hits.len(),
        hits[i].0 == pk,
        forall|j: int| i < j < hits.len() ==> hits[j].0 != pk,
    ensures
        scores_of(hits).contains_key(pk),
        scores_of(hits)[pk] == hits[i].1,
    decreases hits.len(),
{
    if i < hits.len() - 1 {
        let init = hits.drop_last();
        assert(hits[hits.len() - 1].0 != pk);
        assert(init[i] == hits[i]);
        assert forall|j: int| i < j < init.len() implies init[j].0 != pk by {
            assert(init[j] == hits[j]);
        }
        lemma_scores_of_last(init, pk, i);
    }
}

} // verus!
