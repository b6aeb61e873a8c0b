//! The vector index: fixed-dimension vectors under their keys, and the
//! ranking of the keys by a similarity that the caller computes.
//!
//! Numbers are kept as the bit patterns of IEEE 754 single-precision
//! floats; the arithmetic on them is the caller's.

use super::algorithms::{comparable, cosine_similarity, is_cosine};
use super::first_n;
use vstd::prelude::*;
use vstd::slice::slice_to_vec;

verus! {

/// The bit pattern of negative zero.
pub const NEGATIVE_ZERO: u32 = 0x8000_0000;

/// A number that rises with the float whose bit pattern is `bits`: a
/// negative float has a smaller one than a positive float, and both zeros
/// have the same. A NaN stands above or below all numbers, by its sign.
pub open spec fn spec_float_rank(bits: u32) -> u32 {
    if bits == NEGATIVE_ZERO {
        NEGATIVE_ZERO
    } else if bits > NEGATIVE_ZERO {
        (0xffff_ffff - bits) as u32
    } else {
        (bits + NEGATIVE_ZERO) as u32
    }
}

/// The rank of the float with the bit pattern `bits`.
pub fn float_rank(bits: u32) -> (r: u32)
    ensures
        r == spec_float_rank(bits),
{
    if bits == NEGATIVE_ZERO {
        NEGATIVE_ZERO
    } else if bits > NEGATIVE_ZERO {
        0xffff_ffff - bits
    } else {
        bits + NEGATIVE_ZERO
    }
}

/// A vector under its key.
pub struct VectorEntry {
    pub key: String,
    pub vector: Vec<u32>,
}

/// One hit of a vector search: a key and its similarity to the query, as
/// the bit pattern of a float.
#[derive(Debug)]
pub struct VectorSearchResult {
    pub key: String,
    pub score: u32,
}

/// A vector hit as plain values.
pub struct VectorHit {
    pub key: Seq<char>,
    pub score: u32,
}

impl View for VectorSearchResult {
    type V = VectorHit;

    open spec fn view(&self) -> VectorHit {
        VectorHit { key: self.key@, score: self.score }
    }
}

/// The views of a list of vector hits.
pub open spec fn hit_views(results: Seq<VectorSearchResult>) -> Seq<VectorHit> {
    Seq::new(results.len(), |i: int| results[i]@)
}

/// The keys of a list of vector entries.
pub open spec fn vector_keys(entries: Seq<VectorEntry>) -> Seq<Seq<char>> {
    Seq::new(entries.len(), |i: int| entries[i].key@)
}

/// The vectors of a list of vector entries.
pub open spec fn vector_values(entries: Seq<VectorEntry>) -> Seq<Seq<u32>> {
    Seq::new(entries.len(), |i: int| entries[i].vector@)
}

/// The index of the first key at or after `from` that is `key`, or
/// `keys.len()` where there is none.
pub open spec fn key_index(keys: Seq<Seq<char>>, key: Seq<char>, from: int) -> int
    decreases keys.len() - from,
{
    if from < 0 || from >= keys.len() {
        keys.len() as int
    } else if keys[from] == key {
        from
    } else {
        key_index(keys, key, from + 1)
    }
}

/// Where a hit with the score `score` goes among hits that stand from the
/// most similar on: before the first hit, at or after `from`, whose score
/// is lower. It goes behind every hit with the same score.
pub open spec fn vector_rank_point(hits: Seq<VectorHit>, score: u32, from: int) -> int
    decreases hits.len() - from,
{
    if from < 0 || from >= hits.len() {
        hits.len() as int
    } else if spec_float_rank(hits[from].score) < spec_float_rank(score) {
        from
    } else {
        vector_rank_point(hits, score, from + 1)
    }
}

/// The first `n` keys with their scores, from the most similar on; keys
/// with the same score stand in the order of the index.
pub open spec fn ranked_vectors(keys: Seq<Seq<char>>, scores: Seq<u32>, n: int) -> Seq<VectorHit>
    decreases n,
{
    if n <= 0 {
        Seq::empty()
    } else {
        let before = ranked_vectors(keys, scores, n - 1);
        before.insert(
            vector_rank_point(before, scores[n - 1], 0),
            VectorHit { key: keys[n - 1], score: scores[n - 1] },
        )
    }
}

/// The hits stand from the most similar on.
pub open spec fn most_similar_first(hits: Seq<VectorHit>) -> bool {
    forall|i: int, j: int|
        0 <= i < j < hits.len() ==> spec_float_rank((#[trigger] hits[i]).score) >= spec_float_rank(
            (#[trigger] hits[j]).score,
        )
}

/// `vector_rank_point` names the first hit with a lower score; no hit
/// before it has a lower one.
pub proof fn lemma_vector_rank_point(hits: Seq<VectorHit>, score: u32, from: int)
    requires
        0 <= from <= hits.len(),
    ensures
        from <= vector_rank_point(hits, score, from) <= hits.len(),
        forall|j: int|
            from <= j < vector_rank_point(hits, score, from) ==> spec_float_rank(
                (#[trigger] hits[j]).score,
            ) >= spec_float_rank(score),
        vector_rank_point(hits, score, from) < hits.len() ==> spec_float_rank(
            hits[vector_rank_point(hits, score, from)].score,
        ) < spec_float_rank(score),
    decreases hits.len() - from,
{
    if from < hits.len() && spec_float_rank(hits[from].score) >= spec_float_rank(score) {
        lemma_vector_rank_point(hits, score, from + 1);
    }
}

/// A vector search returns one hit for each key, from the most similar on.
pub proof fn lemma_ranked_vectors(keys: Seq<Seq<char>>, scores: Seq<u32>, n: int)
    requires
        0 <= n <= keys.len(),
        n <= scores.len(),
    ensures
        ranked_vectors(keys, scores, n).len() == n,
        most_similar_first(ranked_vectors(keys, scores, n)),
        forall|i: int|
            0 <= i < n ==> ranked_vectors(keys, scores, n).contains(
                VectorHit { key: #[trigger] keys[i], score: scores[i] },
            ),
    decreases n,
{
    if n > 0 {
        lemma_ranked_vectors(keys, scores, n - 1);
        let before = ranked_vectors(keys, scores, n - 1);
        let now = ranked_vectors(keys, scores, n);
        let hit = VectorHit { key: keys[n - 1], score: scores[n - 1] };
        let at = vector_rank_point(before, hit.score, 0);
        lemma_vector_rank_point(before, hit.score, 0);
        assert(now == before.insert(at, hit));
        assert forall|i: int, j: int| 0 <= i < j < now.len() implies spec_float_rank(
            (#[trigger] now[i]).score,
        ) >= spec_float_rank((#[trigger] now[j]).score) by {
            let i0 = if i < at { i } else { i - 1 };
            let j0 = if j < at { j } else { j - 1 };
            if i != at && j != at {
                assert(now[i] == before[i0]);
                assert(now[j] == before[j0]);
            } else if j == at {
                assert(now[i] == before[i0]);
            } else {
                assert(now[j] == before[j0]);
                if j0 > at {
                    assert(spec_float_rank(before[at].score) >= spec_float_rank(before[j0].score));
                }
            }
        }
        assert forall|i: int| 0 <= i < n implies now.contains(
            VectorHit { key: #[trigger] keys[i], score: scores[i] },
        ) by {
            let wanted = VectorHit { key: keys[i], score: scores[i] };
            if i < n - 1 {
                assert(before.contains(wanted));
                let j = choose|j: int| 0 <= j < before.len() && before[j] == wanted;
                let j1 = if j < at { j } else { j + 1 };
                assert(now[j1] == wanted);
            } else {
                assert(now[at] == wanted);
            }
        }
    }
}

/// Vectors of one dimension under their keys, in the order in which the
/// keys came.
pub struct VectorIndex {
    entries: Vec<VectorEntry>,
    dimensions: usize,
}

impl VectorIndex {
    /// The keys, in the order in which they came.
    pub closed spec fn spec_keys(&self) -> Seq<Seq<char>> {
        vector_keys(self.entries@)
    }

    /// The vectors, in the order of their keys.
    pub closed spec fn spec_vectors(&self) -> Seq<Seq<u32>> {
        vector_values(self.entries@)
    }

    /// The number of components that every vector has.
    pub closed spec fn spec_dimensions(&self) -> usize {
        self.dimensions
    }

    /// Every vector has the index's number of components.
    pub closed spec fn wf(&self) -> bool {
        forall|i: int| 0 <= i < self.entries@.len() ==> (#[trigger] self.entries@[i]).vector@.len() == self.dimensions
    }

    /// In a well-formed index every vector has the index's dimension, and
    /// there is one vector for each key.
    pub proof fn lemma_wf(&self)
        requires
            self.wf(),
        ensures
            self.spec_vectors().len() == self.spec_keys().len(),
            forall|i: int|
                0 <= i < self.spec_vectors().len() ==> (#[trigger] self.spec_vectors()[i]).len()
                    == self.spec_dimensions(),
    {
        assert forall|i: int| 0 <= i < self.spec_vectors().len() implies (
        #[trigger] self.spec_vectors()[i]).len() == self.spec_dimensions() by {
            assert(self.entries@[i].vector@.len() == self.dimensions);
        }
    }

    /// An empty index for vectors of `dimensions` components.
    pub fn new(dimensions: usize) -> (r: Self)
        ensures
            r.wf(),
            r.spec_dimensions() == dimensions,
            r.spec_keys().len() == 0,
            r.spec_vectors().len() == 0,
    {
        VectorIndex { entries: Vec::new(), dimensions }
    }

    /// The number of components that every vector has.
    pub fn dimensions(&self) -> (r: usize)
        ensures
            r == self.spec_dimensions(),
    {
        self.dimensions
    }

    /// How many keys have a vector.
    pub fn len(&self) -> (n: usize)
        ensures
            n == self.spec_keys().len(),
    {
        self.entries.len()
    }

    /// Puts `vector` under `key`, in place of the vector that was there. A
    /// vector of another dimension is refused, and nothing changes.
    pub fn insert(&mut self, key: &str, vector: &[u32]) -> (done: bool)
        requires
            old(self).wf(),
        ensures
            final(self).wf(),
            final(self).spec_dimensions() == old(self).spec_dimensions(),
            done == (vector@.len() == old(self).spec_dimensions()),
            !done ==> final(self).spec_keys() == old(self).spec_keys(),
            !done ==> final(self).spec_vectors() == old(self).spec_vectors(),
            done ==> {
                let at = key_index(old(self).spec_keys(), key@, 0);
                if at < old(self).spec_keys().len() {
                    &&& final(self).spec_keys() == old(self).spec_keys()
                    &&& final(self).spec_vectors() == old(self).spec_vectors().update(at, vector@)
                } else {
                    &&& final(self).spec_keys() == old(self).spec_keys().push(key@)
                    &&& final(self).spec_vectors() == old(self).spec_vectors().push(vector@)
                }
            },
    {
        if vector.len() != self.dimensions {
            return false;
        }
        let ghost keys = self.spec_keys();
        let ghost vectors = self.spec_vectors();
        let owned = key.to_owned();
        let mut at: usize = 0;
        while at < self.entries.len() && !(self.entries[at].key == owned)
            invariant
                at <= self.entries@.len(),
                keys == self.spec_keys(),
                key_index(keys, key@, 0) == key_index(keys, key@, at as int),
                owned@ == key@,
            decreases self.entries@.len() - at,
        {
            assert(keys[at as int] == self.entries@[at as int].key@);
            at = at + 1;
        }
        let entry = VectorEntry { key: owned, vector: slice_to_vec(vector) };
        if at < self.entries.len() {
            assert(keys[at as int] == self.entries@[at as int].key@);
            self.entries.set(at, entry);
            assert(self.spec_keys() =~= keys);
            assert(self.spec_vectors() =~= vectors.update(at as int, vector@));
        } else {
            self.entries.push(entry);
            assert(self.spec_keys() =~= keys.push(key@));
            assert(self.spec_vectors() =~= vectors.push(vector@));
        }
        true
    }

    /// Ranks every key by the cosine similarity of its vector to `query`
    /// and returns the `k` most similar, the most similar first; keys with
    /// the same similarity come in the order of the index. `kernel` does
    /// the arithmetic of the similarity, as `cosine_similarity` has it.
    pub fn search<F>(&self, query: &[u32], k: usize, kernel: F) -> (results: Vec<
        VectorSearchResult,
    >) where F: Fn(&[u32], &[u32]) -> u32
        requires
            forall|x: &[u32], y: &[u32]|
                #![trigger kernel.requires((x, y))]
                comparable(x@, y@) ==> kernel.requires((x, y)),
        ensures
            results@.len() <= k,
            exists|scores: Seq<u32>| #[trigger]
                is_outcome(
                    kernel,
                    query@,
                    self.spec_keys(),
                    self.spec_vectors(),
                    k as nat,
                    scores,
                    hit_views(results@),
                ),
    {
        let ghost keys = self.spec_keys();
        let ghost mut scores: Seq<u32> = Seq::empty();
        let mut results: Vec<VectorSearchResult> = Vec::new();
        let mut i: usize = 0;
        assert(hit_views(results@) =~= ranked_vectors(keys, scores, 0));
        while i < self.entries.len()
            invariant
                i <= self.entries@.len(),
                keys == self.spec_keys(),
                scores.len() == i,
                forall|x: &[u32], y: &[u32]|
                #![trigger kernel.requires((x, y))]
                comparable(x@, y@) ==> kernel.requires((x, y)),
                forall|j: int|
                    0 <= j < i ==> is_cosine(
                        kernel,
                        query@,
                        self.spec_vectors()[j],
                        #[trigger] scores[j],
                    ),
                hit_views(results@) == ranked_vectors(keys, scores, i as int),
            decreases self.entries@.len() - i,
        {
            let entry = &self.entries[i];
            let vector = entry.vector.as_slice();
            let score = cosine_similarity(query, vector, &kernel);
            let rank = float_rank(score);
            let ghost before = hit_views(results@);
            let mut at: usize = 0;
            while at < results.len() && float_rank(results[at].score) >= rank
                invariant
                    at <= results@.len(),
                    before == hit_views(results@),
                    rank == spec_float_rank(score),
                    vector_rank_point(before, score, 0) == vector_rank_point(
                        before,
                        score,
                        at as int,
                    ),
                decreases results@.len() - at,
            {
                assert(before[at as int].score == results@[at as int].score);
                at = at + 1;
            }
            proof {
                if at < before.len() {
                    assert(before[at as int].score == results@[at as int].score);
                }
                let grown = scores.push(score);
                assert(keys[i as int] == entry.key@);
                assert(self.spec_vectors()[i as int] == vector@);
                assert(is_cosine(kernel, query@, self.spec_vectors()[i as int], score));
                lemma_ranked_prefix(keys, scores, score, i as int);
                scores = grown;
            }
            results.insert(at, VectorSearchResult { key: entry.key.clone(), score });
            assert(hit_views(results@) =~= before.insert(
                at as int,
                VectorHit { key: keys[i as int], score },
            ));
            i = i + 1;
        }
        let ghost all = hit_views(results@);
        results.truncate(k);
        assert(hit_views(results@) =~= first_n(all, k as nat));
        assert(is_outcome(
            kernel,
            query@,
            self.spec_keys(),
            self.spec_vectors(),
            k as nat,
            scores,
            hit_views(results@),
        ));
        results
    }
}

/// `hits` is what a search for `query` returns where the similarities of
/// the vectors came out as `scores`, one for each vector in their order:
/// the first `k` of the keys with their scores, from the most similar on.
pub open spec fn is_outcome<F: Fn(&[u32], &[u32]) -> u32>(
    kernel: F,
    query: Seq<u32>,
    keys: Seq<Seq<char>>,
    vectors: Seq<Seq<u32>>,
    k: nat,
    scores: Seq<u32>,
    hits: Seq<VectorHit>,
) -> bool {
    &&& scores.len() == keys.len()
    &&& forall|i: int|
        0 <= i < scores.len() ==> is_cosine(kernel, query, vectors[i], #[trigger] scores[i])
    &&& hits == first_n(ranked_vectors(keys, scores, scores.len() as int), k)
}

proof fn lemma_ranked_prefix(keys: Seq<Seq<char>>, scores: Seq<u32>, next: u32, n: int)
    requires
        0 <= n <= scores.len(),
    ensures
        ranked_vectors(keys, scores.push(next), n) == ranked_vectors(keys, scores, n),
    decreases n,
{
    if n > 0 {
        lemma_ranked_prefix(keys, scores, next, n - 1);
        assert(scores.push(next)[n - 1] == scores[n - 1]);
    }
}

} // verus!
