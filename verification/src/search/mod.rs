//! In-memory search: the index of keys, fuzzy search over it, and the
//! metrics of the searches made.

pub mod algorithms;
pub mod metrics;
pub mod vectors;

use algorithms::{comparable, fuzzy_match, spec_fuzzy_match, Score};
use metrics::SearchMetrics;
use vectors::{hit_views, is_outcome, VectorIndex, VectorSearchResult};
use std::collections::HashMap;
use std::time::{Duration, Instant};
use vstd::prelude::*;
use vstd::slice::slice_to_vec;
use vstd::utf8::encode_utf8;

verus! {

/// `std::time::Instant`, a reading of the monotonic clock. Nothing is known
/// of what a value holds.
#[verifier::external_type_specification]
#[verifier::external_body]
pub struct ExInstant(std::time::Instant);

/// Reads the monotonic clock with `std::time::Instant::now`. Nothing is
/// claimed of the reading.
#[verifier::external_body]
fn stopwatch_start() -> Instant {
    Instant::now()
}

/// The time since `start`, by `std::time::Instant::elapsed`. Nothing is
/// claimed of it.
#[verifier::external_body]
fn stopwatch_read(start: &Instant) -> Duration {
    start.elapsed()
}

/// The whole microseconds of `duration`, by `std::time::Duration::as_micros`,
/// cut to 64 bits. Nothing is claimed of the number.
#[verifier::external_body]
fn whole_micros(duration: &Duration) -> u64 {
    duration.as_micros() as u64
}

/// What is indexed under one key.
pub struct IndexEntry {
    pub key: String,
    pub data: Vec<u8>,
    pub metadata: Option<HashMap<String, String>>,
}

/// An index entry as plain values.
pub struct EntryView {
    pub key: Seq<char>,
    pub data: Seq<u8>,
    pub metadata: Option<Map<String, String>>,
}

impl View for IndexEntry {
    type V = EntryView;

    open spec fn view(&self) -> EntryView {
        EntryView {
            key: self.key@,
            data: self.data@,
            metadata: match self.metadata {
                Some(m) => Some(m@),
                None => None,
            },
        }
    }
}

/// One hit of a fuzzy search.
pub struct SearchResult {
    pub key: String,
    pub score: Score,
    pub metadata: Option<HashMap<String, String>>,
}

/// A hit as plain values.
pub struct ResultView {
    pub key: Seq<char>,
    pub score: Score,
    pub metadata: Option<Map<String, String>>,
}

impl View for SearchResult {
    type V = ResultView;

    open spec fn view(&self) -> ResultView {
        ResultView {
            key: self.key@,
            score: self.score,
            metadata: match self.metadata {
                Some(m) => Some(m@),
                None => None,
            },
        }
    }
}

/// The views of a list of entries.
pub open spec fn entry_views(entries: Seq<IndexEntry>) -> Seq<EntryView> {
    Seq::new(entries.len(), |i: int| entries[i]@)
}

/// The views of a list of hits.
pub open spec fn result_views(results: Seq<SearchResult>) -> Seq<ResultView> {
    Seq::new(results.len(), |i: int| results[i]@)
}

/// The index of the first entry at or after `from` that has the key `key`,
/// or `entries.len()` where there is none.
pub open spec fn entry_index(entries: Seq<EntryView>, key: Seq<char>, from: int) -> int
    decreases entries.len() - from,
{
    if from < 0 || from >= entries.len() {
        entries.len() as int
    } else if entries[from].key == key {
        from
    } else {
        entry_index(entries, key, from + 1)
    }
}

/// The index after `data` was indexed under `key`: an entry that is there
/// gets the new data, and the new metadata where some is given; a new key is
/// put at the end.
pub open spec fn indexed(
    entries: Seq<EntryView>,
    key: Seq<char>,
    data: Seq<u8>,
    metadata: Option<Map<String, String>>,
) -> Seq<EntryView> {
    let at = entry_index(entries, key, 0);
    if at < entries.len() {
        entries.update(
            at,
            EntryView {
                key,
                data,
                metadata: match metadata {
                    Some(m) => Some(m),
                    None => entries[at].metadata,
                },
            },
        )
    } else {
        entries.push(EntryView { key, data, metadata })
    }
}

/// Where a hit with the score `score` goes among hits that stand from the
/// best on: before the first hit, at or after `from`, that it beats. It goes
/// behind every hit with the same score.
pub open spec fn rank_point(hits: Seq<ResultView>, score: Score, from: int) -> int
    decreases hits.len() - from,
{
    if from < 0 || from >= hits.len() {
        hits.len() as int
    } else if !hits[from].score.at_least(score) {
        from
    } else {
        rank_point(hits, score, from + 1)
    }
}

/// What the query scores against an entry, if it matches.
pub open spec fn entry_hit(entry: EntryView, query: Seq<char>) -> Option<ResultView> {
    match spec_fuzzy_match(encode_utf8(entry.key), encode_utf8(query)) {
        Some(score) => Some(ResultView { key: entry.key, score, metadata: entry.metadata }),
        None => None,
    }
}

/// The hits among the first `n` entries, from the best on; hits with the
/// same score stand in the order of their entries.
pub open spec fn ranked_hits(entries: Seq<EntryView>, query: Seq<char>, n: int) -> Seq<ResultView>
    decreases n,
{
    if n <= 0 {
        Seq::empty()
    } else {
        let before = ranked_hits(entries, query, n - 1);
        match entry_hit(entries[n - 1], query) {
            Some(hit) => before.insert(rank_point(before, hit.score, 0), hit),
            None => before,
        }
    }
}

/// The first `limit` of `items`.
pub open spec fn first_n<T>(items: Seq<T>, limit: nat) -> Seq<T> {
    if limit < items.len() {
        items.subrange(0, limit as int)
    } else {
        items
    }
}

/// `hit` is the hit of one of the first `n` entries, and its score is a
/// well-formed fraction.
pub open spec fn is_hit_of(entries: Seq<EntryView>, query: Seq<char>, n: int, hit: ResultView) -> bool {
    &&& hit.score.valid()
    &&& exists|i: int| 0 <= i < n && entry_hit(entries[i], query) == Some(hit)
}

/// The hits stand from the best on.
pub open spec fn best_first(hits: Seq<ResultView>) -> bool {
    forall|i: int, j: int|
        0 <= i < j < hits.len() ==> (#[trigger] hits[i]).score.at_least((#[trigger] hits[j]).score)
}

/// `rank_point` names the first hit that the score beats; every hit before
/// it is at least as good.
pub proof fn lemma_rank_point(hits: Seq<ResultView>, score: Score, from: int)
    requires
        0 <= from <= hits.len(),
    ensures
        from <= rank_point(hits, score, from) <= hits.len(),
        forall|j: int|
            from <= j < rank_point(hits, score, from) ==> (#[trigger] hits[j]).score.at_least(score),
        rank_point(hits, score, from) < hits.len() ==> !hits[rank_point(
            hits,
            score,
            from,
        )].score.at_least(score),
    decreases hits.len() - from,
{
    if from < hits.len() && hits[from].score.at_least(score) {
        lemma_rank_point(hits, score, from + 1);
    }
}

/// Of three well-formed scores, the first is at least the third where it is
/// at least the second and the second at least the third.
pub proof fn lemma_at_least_transitive(a: Score, b: Score, c: Score)
    requires
        a.valid(),
        b.valid(),
        c.valid(),
        a.at_least(b),
        b.at_least(c),
    ensures
        a.at_least(c),
{
    let (an, ad) = (a.numerator as int, a.denominator as int);
    let (bn, bd) = (b.numerator as int, b.denominator as int);
    let (cn, cd) = (c.numerator as int, c.denominator as int);
    assert(an * cd >= cn * ad) by (nonlinear_arith)
        requires
            an * bd >= bn * ad,
            bn * cd >= cn * bd,
            ad > 0,
            bd > 0,
            cd > 0,
            an >= 0,
            bn >= 0,
            cn >= 0,
    {
        assert(an * bd * cd >= bn * ad * cd);
        assert(bn * cd * ad >= cn * bd * ad);
        assert(bn * ad * cd == bn * cd * ad);
        assert(an * bd * cd >= cn * bd * ad);
        assert(an * bd * cd == (an * cd) * bd);
        assert(cn * bd * ad == (cn * ad) * bd);
    }
}

/// Every hit of a search is the hit of one of the entries, with a
/// well-formed score, and there are no more hits than entries.
pub proof fn lemma_hits_come_from_entries(entries: Seq<EntryView>, query: Seq<char>, n: int)
    requires
        0 <= n <= entries.len(),
    ensures
        ranked_hits(entries, query, n).len() <= n,
        forall|j: int|
            0 <= j < ranked_hits(entries, query, n).len() ==> is_hit_of(
                entries,
                query,
                n,
                #[trigger] ranked_hits(entries, query, n)[j],
            ),
    decreases n,
{
    if n > 0 {
        lemma_hits_come_from_entries(entries, query, n - 1);
        let before = ranked_hits(entries, query, n - 1);
        let now = ranked_hits(entries, query, n);
        assert forall|j: int| 0 <= j < before.len() implies is_hit_of(
            entries,
            query,
            n,
            #[trigger] before[j],
        ) by {
            assert(is_hit_of(entries, query, n - 1, before[j]));
            let i = choose|i: int|
                0 <= i < n - 1 && entry_hit(entries[i], query) == Some(before[j]);
            assert(0 <= i < n && entry_hit(entries[i], query) == Some(before[j]));
        }
        match entry_hit(entries[n - 1], query) {
            Some(hit) => {
                let at = rank_point(before, hit.score, 0);
                lemma_rank_point(before, hit.score, 0);
                lemma_fuzzy_score_valid(encode_utf8(entries[n - 1].key), encode_utf8(query));
                assert(is_hit_of(entries, query, n, hit));
                assert forall|j: int| 0 <= j < now.len() implies is_hit_of(
                    entries,
                    query,
                    n,
                    #[trigger] now[j],
                ) by {
                    if j < at {
                        assert(now[j] == before[j]);
                    } else if j > at {
                        assert(now[j] == before[j - 1]);
                    }
                }
            },
            None => {},
        }
    }
}

/// Every entry that matches the query has its hit among the hits.
pub proof fn lemma_hits_complete(entries: Seq<EntryView>, query: Seq<char>, n: int, i: int)
    requires
        0 <= i < n <= entries.len(),
        entry_hit(entries[i], query) is Some,
    ensures
        ranked_hits(entries, query, n).contains(entry_hit(entries[i], query)->0),
    decreases n,
{
    let before = ranked_hits(entries, query, n - 1);
    let now = ranked_hits(entries, query, n);
    let wanted = entry_hit(entries[i], query)->0;
    match entry_hit(entries[n - 1], query) {
        Some(hit) => {
            let at = rank_point(before, hit.score, 0);
            lemma_rank_point(before, hit.score, 0);
            if i < n - 1 {
                lemma_hits_complete(entries, query, n - 1, i);
                let j = choose|j: int| 0 <= j < before.len() && before[j] == wanted;
                let j1 = if j < at {
                    j
                } else {
                    j + 1
                };
                assert(now[j1] == wanted);
            } else {
                assert(now[at] == wanted);
            }
        },
        None => {
            lemma_hits_complete(entries, query, n - 1, i);
        },
    }
}

/// The hits of a search stand from the best on.
pub proof fn lemma_hits_best_first(entries: Seq<EntryView>, query: Seq<char>, n: int)
    requires
        0 <= n <= entries.len(),
    ensures
        best_first(ranked_hits(entries, query, n)),
    decreases n,
{
    if n > 0 {
        lemma_hits_best_first(entries, query, n - 1);
        lemma_hits_come_from_entries(entries, query, n - 1);
        let before = ranked_hits(entries, query, n - 1);
        let now = ranked_hits(entries, query, n);
        match entry_hit(entries[n - 1], query) {
            Some(hit) => {
                let at = rank_point(before, hit.score, 0);
                lemma_rank_point(before, hit.score, 0);
                lemma_fuzzy_score_valid(encode_utf8(entries[n - 1].key), encode_utf8(query));
                assert forall|i: int, j: int| 0 <= i < j < now.len() implies (
                #[trigger] now[i]).score.at_least((#[trigger] now[j]).score) by {
                    let i0 = if i < at { i } else { i - 1 };
                    let j0 = if j < at { j } else { j - 1 };
                    if i != at && j != at {
                        assert(now[i] == before[i0]);
                        assert(now[j] == before[j0]);
                    } else if j == at {
                        assert(now[i] == before[i0]);
                    } else {
                        assert(now[j] == before[j0]);
                        assert(hit.score.at_least(before[at].score));
                        if j0 > at {
                            assert(before[at].score.at_least(before[j0].score));
                            assert(is_hit_of(entries, query, n - 1, before[at]));
                            assert(is_hit_of(entries, query, n - 1, before[j0]));
                            lemma_at_least_transitive(hit.score, before[at].score, before[j0].score);
                        }
                    }
                }
            },
            None => {},
        }
    }
}

/// Every score that a match gives is a well-formed fraction.
pub proof fn lemma_fuzzy_score_valid(text: Seq<u8>, pattern: Seq<u8>)
    ensures
        spec_fuzzy_match(text, pattern) matches Some(score) ==> score.valid(),
{
    if pattern.len() > 0 && text.len() <= isize::MAX {
        algorithms::lemma_embedding_shape(text, pattern, 0, 0);
    }
}

/// No two entries have the same key.
pub open spec fn keys_unique(entries: Seq<EntryView>) -> bool {
    forall|i: int, j: int|
        0 <= i < j < entries.len() ==> (#[trigger] entries[i]).key != (#[trigger] entries[j]).key
}

/// `entry_index` names the first entry with the key, and no entry before it
/// has it.
pub proof fn lemma_entry_index(entries: Seq<EntryView>, key: Seq<char>, from: int)
    requires
        0 <= from <= entries.len(),
    ensures
        from <= entry_index(entries, key, from) <= entries.len(),
        forall|j: int| from <= j < entry_index(entries, key, from) ==> (#[trigger] entries[j]).key != key,
        entry_index(entries, key, from) < entries.len() ==> entries[entry_index(
            entries,
            key,
            from,
        )].key == key,
    decreases entries.len() - from,
{
    if from < entries.len() && entries[from].key != key {
        lemma_entry_index(entries, key, from + 1);
    }
}

/// The in-memory index: what is stored under each key, in the order in
/// which the keys came, and the metrics of the searches made.
pub struct SearchIndex {
    entries: Vec<IndexEntry>,
    vector_index: Option<VectorIndex>,
    metrics: SearchMetrics,
}

impl SearchIndex {
    /// The entries in the order in which their keys were first indexed.
    pub closed spec fn spec_entries(&self) -> Seq<EntryView> {
        entry_views(self.entries@)
    }

    /// The metrics of the searches made.
    pub closed spec fn spec_metrics(&self) -> SearchMetrics {
        self.metrics
    }

    /// The vector index, if one was built.
    pub closed spec fn spec_vector_index(&self) -> Option<VectorIndex> {
        self.vector_index
    }

    /// No key is indexed twice, and the metrics and the vector index are
    /// well formed.
    pub closed spec fn wf(&self) -> bool {
        &&& keys_unique(self.spec_entries())
        &&& self.metrics.wf()
        &&& self.vector_index matches Some(vectors) ==> vectors.wf()
    }

    /// What a well-formed index guarantees to its readers.
    pub proof fn lemma_wf(&self)
        requires
            self.wf(),
        ensures
            keys_unique(self.spec_entries()),
            self.spec_metrics().wf(),
            self.spec_vector_index() matches Some(vectors) ==> vectors.wf(),
    {
    }

    /// An empty index with nothing recorded.
    pub fn new() -> (r: Self)
        ensures
            r.wf(),
            r.spec_entries().len() == 0,
            r.spec_vector_index() is None,
            r.spec_metrics().spec_total_searches() == 0,
            r.spec_metrics().spec_total_search_time() == 0,
            r.spec_metrics().spec_recent().len() == 0,
    {
        SearchIndex { entries: Vec::new(), vector_index: None, metrics: SearchMetrics::new() }
    }

    fn find(&self, key: &String) -> (at: usize)
        ensures
            at == entry_index(self.spec_entries(), key@, 0),
            at <= self.entries@.len(),
    {
        let ghost entries = self.spec_entries();
        let mut at: usize = 0;
        while at < self.entries.len() && !(self.entries[at].key == *key)
            invariant
                at <= self.entries@.len(),
                entries == self.spec_entries(),
                entry_index(entries, key@, 0) == entry_index(entries, key@, at as int),
            decreases self.entries@.len() - at,
        {
            assert(entries[at as int].key == self.entries@[at as int].key@);
            at = at + 1;
        }
        proof {
            if at < entries.len() {
                assert(entries[at as int].key == self.entries@[at as int].key@);
            }
        }
        at
    }

    /// Indexes `data` under `key`, in place of what was there. Metadata that
    /// is given takes the place of the old; without new metadata the old
    /// stays. This always succeeds.
    pub fn index_data(
        &mut self,
        key: &str,
        data: &[u8],
        metadata: Option<HashMap<String, String>>,
    ) -> (done: bool)
        requires
            old(self).wf(),
        ensures
            done,
            final(self).wf(),
            final(self).spec_metrics() == old(self).spec_metrics(),
            final(self).spec_vector_index() == old(self).spec_vector_index(),
            final(self).spec_entries() == indexed(
                old(self).spec_entries(),
                key@,
                data@,
                match metadata {
                    Some(m) => Some(m@),
                    None => None,
                },
            ),
    {
        let ghost before = self.spec_entries();
        let owned = key.to_owned();
        let at = self.find(&owned);
        proof {
            lemma_entry_index(before, key@, 0);
        }
        if at < self.entries.len() {
            let kept = match metadata {
                Some(m) => Some(m),
                None => match &self.entries[at].metadata {
                    Some(m) => Some(m.clone()),
                    None => None,
                },
            };
            let entry = IndexEntry { key: owned, data: slice_to_vec(data), metadata: kept };
            let ghost view = entry@;
            self.entries.set(at, entry);
            proof {
                assert(self.spec_entries() =~= before.update(at as int, view));
                assert forall|i: int, j: int| 0 <= i < j < self.spec_entries().len() implies (
                #[trigger] self.spec_entries()[i]).key != (#[trigger] self.spec_entries()[j]).key by {
                    assert(self.spec_entries()[i].key == before[i].key);
                    assert(self.spec_entries()[j].key == before[j].key);
                }
            }
        } else {
            let entry = IndexEntry { key: owned, data: slice_to_vec(data), metadata };
            let ghost view = entry@;
            self.entries.push(entry);
            proof {
                assert(self.spec_entries() =~= before.push(view));
                assert forall|i: int, j: int| 0 <= i < j < self.spec_entries().len() implies (
                #[trigger] self.spec_entries()[i]).key != (#[trigger] self.spec_entries()[j]).key by {
                    if j < before.len() {
                        assert(self.spec_entries()[i] == before[i]);
                        assert(self.spec_entries()[j] == before[j]);
                    } else {
                        assert(self.spec_entries()[i] == before[i]);
                    }
                }
            }
        }
        true
    }

    /// How many keys are indexed.
    pub fn len(&self) -> (n: usize)
        ensures
            n == self.spec_entries().len(),
    {
        self.entries.len()
    }

    /// The metrics of the searches made.
    pub fn metrics(&self) -> (r: &SearchMetrics)
        ensures
            *r == self.spec_metrics(),
    {
        &self.metrics
    }

    fn rank_point_of(results: &Vec<SearchResult>, score: &Score) -> (at: usize)
        ensures
            at == rank_point(result_views(results@), *score, 0),
            at <= results@.len(),
    {
        let ghost hits = result_views(results@);
        let mut at: usize = 0;
        while at < results.len() && results[at].score.is_at_least(score)
            invariant
                at <= results@.len(),
                hits == result_views(results@),
                rank_point(hits, *score, 0) == rank_point(hits, *score, at as int),
            decreases results@.len() - at,
        {
            assert(hits[at as int].score == results@[at as int].score);
            at = at + 1;
        }
        proof {
            if at < hits.len() {
                assert(hits[at as int].score == results@[at as int].score);
            }
        }
        at
    }

    /// The hits of `query` among the first `count` entries, from the best on.
    fn collect_hits(&self, query: &str) -> (results: Vec<SearchResult>)
        ensures
            result_views(results@) == ranked_hits(
                self.spec_entries(),
                query@,
                self.spec_entries().len() as int,
            ),
    {
        let ghost entries = self.spec_entries();
        let mut results: Vec<SearchResult> = Vec::new();
        let mut i: usize = 0;
        assert(result_views(results@) =~= ranked_hits(entries, query@, 0));
        while i < self.entries.len()
            invariant
                i <= self.entries@.len(),
                entries == self.spec_entries(),
                result_views(results@) == ranked_hits(entries, query@, i as int),
            decreases self.entries@.len() - i,
        {
            let entry = &self.entries[i];
            assert(entries[i as int] == entry@);
            match fuzzy_match(entry.key.as_str(), query) {
                Some(score) => {
                    let at = Self::rank_point_of(&results, &score);
                    let metadata = match &entry.metadata {
                        Some(m) => Some(m.clone()),
                        None => None,
                    };
                    let hit = SearchResult { key: entry.key.clone(), score, metadata };
                    let ghost before = result_views(results@);
                    let ghost view = hit@;
                    assert(entry_hit(entries[i as int], query@) == Some(view));
                    results.insert(at, hit);
                    assert(result_views(results@) =~= before.insert(at as int, view));
                },
                None => {},
            }
            i = i + 1;
        }
        results
    }

    /// Scores every key against `query`, and returns the keys that match,
    /// from the best score on, `limit` of them at most; keys with the same
    /// score come in the order in which they were first indexed. The search
    /// is counted in the metrics with the time it took.
    pub fn search(&mut self, query: &str, limit: usize) -> (results: Vec<SearchResult>)
        requires
            old(self).wf(),
        ensures
            final(self).wf(),
            final(self).spec_entries() == old(self).spec_entries(),
            final(self).spec_vector_index() == old(self).spec_vector_index(),
            result_views(results@) == first_n(
                ranked_hits(
                    old(self).spec_entries(),
                    query@,
                    old(self).spec_entries().len() as int,
                ),
                limit as nat,
            ),
            results@.len() <= limit,
            final(self).spec_metrics().spec_total_searches() as int == (old(
                self,
            ).spec_metrics().spec_total_searches() + 1) % 0x1_0000_0000_0000_0000,
            final(self).spec_metrics().spec_recent() == old(self).spec_metrics().spec_recent(),
    {
        let start = stopwatch_start();
        let mut results = self.collect_hits(query);
        let ghost all = result_views(results@);
        results.truncate(limit);
        assert(result_views(results@) =~= first_n(all, limit as nat));
        let elapsed = stopwatch_read(&start);
        self.metrics.record_search(whole_micros(&elapsed));
        results
    }

    /// Builds an empty vector index for vectors of `dimensions` components,
    /// in place of the one that was there.
    pub fn build_vector_index(&mut self, dimensions: usize)
        requires
            old(self).wf(),
        ensures
            final(self).wf(),
            final(self).spec_entries() == old(self).spec_entries(),
            final(self).spec_metrics() == old(self).spec_metrics(),
            final(self).spec_vector_index() matches Some(vectors) && vectors.spec_dimensions()
                == dimensions && vectors.spec_keys().len() == 0,
    {
        self.vector_index = Some(VectorIndex::new(dimensions));
    }

    /// Puts `vector` under `key` in the vector index, in place of the
    /// vector that was there. Without a vector index, or with a vector of
    /// another dimension than the index has, nothing is done and `false` is
    /// returned.
    pub fn index_vector(&mut self, key: &str, vector: &[u32]) -> (done: bool)
        requires
            old(self).wf(),
        ensures
            final(self).wf(),
            final(self).spec_entries() == old(self).spec_entries(),
            final(self).spec_metrics() == old(self).spec_metrics(),
            old(self).spec_vector_index() is None ==> !done && final(self).spec_vector_index() is None,
            old(self).spec_vector_index() matches Some(before) ==> {
                &&& done == (vector@.len() == before.spec_dimensions())
                &&& final(self).spec_vector_index() matches Some(after) && {
                    let at = vectors::key_index(before.spec_keys(), key@, 0);
                    &&& after.spec_dimensions() == before.spec_dimensions()
                    &&& !done ==> after.spec_keys() == before.spec_keys() && after.spec_vectors()
                        == before.spec_vectors()
                    &&& done && at < before.spec_keys().len() ==> after.spec_keys()
                        == before.spec_keys() && after.spec_vectors()
                        == before.spec_vectors().update(at, vector@)
                    &&& done && at >= before.spec_keys().len() ==> after.spec_keys()
                        == before.spec_keys().push(key@) && after.spec_vectors()
                        == before.spec_vectors().push(vector@)
                }
            },
    {
        match &mut self.vector_index {
            Some(vectors) => vectors.insert(key, vector),
            None => false,
        }
    }

    /// The `k` keys whose vectors are most similar to `query` by their
    /// cosine, the most similar first, where a vector index has been built;
    /// `None` where none has. `kernel` does the arithmetic of the cosine,
    /// as `cosine_similarity` has it.
    pub fn vector_search<F>(&self, query: &[u32], k: usize, kernel: F) -> (r: Option<
        Vec<VectorSearchResult>,
    >) where F: Fn(&[u32], &[u32]) -> u32
        requires
            forall|x: &[u32], y: &[u32]|
                #![trigger kernel.requires((x, y))]
                comparable(x@, y@) ==> kernel.requires((x, y)),
        ensures
            r is None <==> self.spec_vector_index() is None,
            r matches Some(results) ==> results@.len() <= k && exists|scores: Seq<u32>| #[trigger]
                is_outcome(
                    kernel,
                    query@,
                    self.spec_vector_index()->0.spec_keys(),
                    self.spec_vector_index()->0.spec_vectors(),
                    k as nat,
                    scores,
                    hit_views(results@),
                ),
    {
        match &self.vector_index {
            Some(vectors) => Some(vectors.search(query, k, kernel)),
            None => None,
        }
    }
}

} // verus!
