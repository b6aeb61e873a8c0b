//! Rolling search metrics: lifetime counters and a window of recent searches.

use std::collections::VecDeque;
use std::time::SystemTime;
use vstd::prelude::*;

verus! {

/// How many recent searches the window keeps.
pub const WINDOW_SIZE: usize = 100;

/// `std::time::SystemTime`, a reading of the wall clock. Nothing is known
/// of what a value holds.
#[verifier::external_type_specification]
#[verifier::external_body]
pub struct ExSystemTime(std::time::SystemTime);

/// Reads the wall clock through `std::time::SystemTime::now`. Nothing is
/// claimed of the reading.
#[verifier::external_body]
fn wall_clock_now() -> SystemTime {
    SystemTime::now()
}

/// One recorded search.
#[derive(Debug)]
pub struct SearchStats {
    pub query: String,
    /// How long the search took, in whole microseconds.
    pub duration_micros: u64,
    pub timestamp: SystemTime,
    pub result_count: usize,
}

impl Clone for SearchStats {
    fn clone(&self) -> (r: Self)
        ensures
            r == *self,
    {
        SearchStats {
            query: self.query.clone(),
            duration_micros: self.duration_micros,
            timestamp: self.timestamp,
            result_count: self.result_count,
        }
    }
}

/// The first `limit` items of `window` read from its newest end.
pub open spec fn newest_first(window: Seq<SearchStats>, limit: nat) -> Seq<SearchStats> {
    Seq::new(
        if limit < window.len() {
            limit
        } else {
            window.len()
        },
        |i: int| window[window.len() - 1 - i],
    )
}

/// `window` after one more search: the oldest item leaves when the window is
/// full, and the new one is put at the newest end.
pub open spec fn window_after(window: Seq<SearchStats>, stats: SearchStats) -> Seq<SearchStats> {
    if window.len() >= WINDOW_SIZE {
        window.subrange(1, window.len() as int).push(stats)
    } else {
        window.push(stats)
    }
}

/// Lifetime counters of all searches, and the most recent ones in detail.
pub struct SearchMetrics {
    total_searches: u64,
    total_search_time: u64,
    recent_searches: VecDeque<SearchStats>,
}

impl Default for SearchMetrics {
    fn default() -> (r: Self)
        ensures
            r.wf(),
            r.spec_total_searches() == 0,
            r.spec_total_search_time() == 0,
            r.spec_recent() == Seq::<SearchStats>::empty(),
    {
        Self::new()
    }
}

impl SearchMetrics {
    /// The window holds at most `WINDOW_SIZE` searches.
    pub closed spec fn wf(&self) -> bool {
        self.recent_searches@.len() <= WINDOW_SIZE
    }

    /// How many searches were recorded, modulo 2^64.
    pub closed spec fn spec_total_searches(&self) -> u64 {
        self.total_searches
    }

    /// The sum of all recorded durations in microseconds, modulo 2^64.
    pub closed spec fn spec_total_search_time(&self) -> u64 {
        self.total_search_time
    }

    /// The window of recent searches, oldest first.
    pub closed spec fn spec_recent(&self) -> Seq<SearchStats> {
        self.recent_searches@
    }

    /// A well-formed window never holds more than `WINDOW_SIZE` searches.
    pub proof fn lemma_window_bounded(&self)
        requires
            self.wf(),
        ensures
            self.spec_recent().len() <= WINDOW_SIZE,
    {
    }

    /// Metrics with nothing recorded.
    pub fn new() -> (r: Self)
        ensures
            r.wf(),
            r.spec_total_searches() == 0,
            r.spec_total_search_time() == 0,
            r.spec_recent() == Seq::<SearchStats>::empty(),
    {
        SearchMetrics {
            total_searches: 0,
            total_search_time: 0,
            recent_searches: VecDeque::with_capacity(WINDOW_SIZE),
        }
    }

    /// Counts one search that took `duration_micros` and returns the new
    /// count. Both counters wrap at 2^64. The window is left as it is.
    pub fn record_search(&mut self, duration_micros: u64) -> (total: u64)
        requires
            old(self).wf(),
        ensures
            final(self).wf(),
            total == final(self).spec_total_searches(),
            final(self).spec_total_searches() as int == (old(self).spec_total_searches() + 1)
                % 0x1_0000_0000_0000_0000,
            final(self).spec_total_search_time() as int == (old(self).spec_total_search_time()
                + duration_micros) % 0x1_0000_0000_0000_0000,
            final(self).spec_recent() == old(self).spec_recent(),
    {
        self.total_searches = self.total_searches.wrapping_add(1);
        self.total_search_time = self.total_search_time.wrapping_add(duration_micros);
        self.total_searches
    }

    /// Counts one search and puts it into the window with the time `timestamp`.
    pub fn record_search_at(
        &mut self,
        query: &str,
        duration_micros: u64,
        timestamp: SystemTime,
        result_count: usize,
    )
        requires
            old(self).wf(),
        ensures
            final(self).wf(),
            final(self).spec_total_searches() as int == (old(self).spec_total_searches() + 1)
                % 0x1_0000_0000_0000_0000,
            final(self).spec_total_search_time() as int == (old(self).spec_total_search_time()
                + duration_micros) % 0x1_0000_0000_0000_0000,
            exists|stats: SearchStats|
                {
                    &&& stats.query@ == query@
                    &&& stats.duration_micros == duration_micros
                    &&& stats.timestamp == timestamp
                    &&& stats.result_count == result_count
                    &&& final(self).spec_recent() == window_after(old(self).spec_recent(), stats)
                },
    {
        self.record_search(duration_micros);
        if self.recent_searches.len() >= WINDOW_SIZE {
            self.recent_searches.pop_front();
        }
        let stats = SearchStats {
            query: query.to_owned(),
            duration_micros,
            timestamp,
            result_count,
        };
        self.recent_searches.push_back(stats);
        assert(self.spec_recent() == window_after(old(self).spec_recent(), stats));
    }

    /// Counts one search and puts it into the window, stamped with the
    /// current wall-clock time.
    pub fn record_search_with_details(
        &mut self,
        query: &str,
        duration_micros: u64,
        result_count: usize,
    )
        requires
            old(self).wf(),
        ensures
            final(self).wf(),
            final(self).spec_total_searches() as int == (old(self).spec_total_searches() + 1)
                % 0x1_0000_0000_0000_0000,
            final(self).spec_total_search_time() as int == (old(self).spec_total_search_time()
                + duration_micros) % 0x1_0000_0000_0000_0000,
            exists|stats: SearchStats|
                {
                    &&& stats.query@ == query@
                    &&& stats.duration_micros == duration_micros
                    &&& stats.result_count == result_count
                    &&& final(self).spec_recent() == window_after(old(self).spec_recent(), stats)
                },
    {
        let timestamp = wall_clock_now();
        self.record_search_at(query, duration_micros, timestamp, result_count);
    }

    /// The mean duration of all recorded searches in whole microseconds,
    /// rounded down; `None` while nothing was recorded.
    pub fn get_average_search_time(&self) -> (r: Option<u64>)
        ensures
            self.spec_total_searches() == 0 ==> r is None,
            self.spec_total_searches() != 0 ==> r == Some(
                (self.spec_total_search_time() / self.spec_total_searches()) as u64,
            ),
    {
        if self.total_searches == 0 {
            return None;
        }
        Some(self.total_search_time / self.total_searches)
    }

    /// How many searches were recorded, modulo 2^64.
    pub fn total_searches(&self) -> (r: u64)
        ensures
            r == self.spec_total_searches(),
    {
        self.total_searches
    }

    /// The sum of all recorded durations in microseconds, modulo 2^64.
    pub fn total_search_time(&self) -> (r: u64)
        ensures
            r == self.spec_total_search_time(),
    {
        self.total_search_time
    }

    /// Up to `limit` of the most recent searches, the latest first.
    pub fn get_recent_searches(&self, limit: usize) -> (r: Vec<SearchStats>)
        requires
            self.wf(),
        ensures
            r@ == newest_first(self.spec_recent(), limit as nat),
            r@.len() <= WINDOW_SIZE,
            r@.len() <= limit,
    {
        let len = self.recent_searches.len();
        let count = if limit < len {
            limit
        } else {
            len
        };
        let mut out: Vec<SearchStats> = Vec::new();
        let mut i: usize = 0;
        while i < count
            invariant
                len == self.recent_searches@.len(),
                count <= len,
                i <= count,
                out@.len() == i,
                forall|j: int| 0 <= j < i ==> out@[j] == self.recent_searches@[len - 1 - j],
            decreases count - i,
        {
            out.push(self.recent_searches[len - 1 - i].clone());
            i = i + 1;
        }
        assert(out@ =~= newest_first(self.spec_recent(), limit as nat));
        out
    }
}

} // verus!
