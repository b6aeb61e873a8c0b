use fabric::search::algorithms::cosine_similarity;
use fabric::search::vectors::{float_rank, VectorIndex};
use fabric::search::SearchIndex;

fn bits(values: &[f32]) -> Vec<u32> {
    values.iter().map(|x| x.to_bits()).collect()
}

/// The arithmetic of the cosine, for vectors that can be compared.
fn kernel(a: &[u32], b: &[u32]) -> u32 {
    let a: Vec<f32> = a.iter().map(|x| f32::from_bits(*x)).collect();
    let b: Vec<f32> = b.iter().map(|x| f32::from_bits(*x)).collect();
    let dot: f32 = a.iter().zip(&b).map(|(x, y)| x * y).sum();
    let norm_a: f32 = a.iter().map(|x| x * x).sum::<f32>().sqrt();
    let norm_b: f32 = b.iter().map(|x| x * x).sum::<f32>().sqrt();
    if norm_a == 0.0 || norm_b == 0.0 {
        return 0.0f32.to_bits();
    }
    (dot / (norm_a * norm_b)).to_bits()
}

fn never(_a: &[u32], _b: &[u32]) -> u32 {
    panic!("vectors that cannot be compared reached the arithmetic")
}

fn cosine(a: &[f32], b: &[f32]) -> f32 {
    f32::from_bits(cosine_similarity(&bits(a), &bits(b), kernel))
}

#[test]
fn test_cosine_similarity() {
    let a = vec![1.0, 2.0, 3.0];
    let b = vec![4.0, 5.0, 6.0];
    let sim = cosine(&a, &b);
    assert!(sim > 0.0 && sim < 1.0);
}

#[test]
fn cosine_of_a_vector_with_itself_is_one() {
    for v in [vec![1.0f32, 2.0, 3.0], vec![0.5], vec![-4.0, 0.0, 3.0, 1.0e10]] {
        assert!((cosine(&v, &v) - 1.0).abs() < 1.0e-6);
    }
    assert_eq!(cosine(&[1.0, 0.0], &[-1.0, 0.0]), -1.0);
    assert_eq!(cosine(&[1.0, 0.0], &[0.0, 1.0]), 0.0);
}

#[test]
fn cosine_of_vectors_that_cannot_be_compared_is_zero() {
    let some = bits(&[1.0, 2.0, 3.0]);
    let fewer = bits(&[1.0, 2.0]);
    assert_eq!(cosine_similarity(&some, &fewer, never), 0);
    assert_eq!(cosine_similarity(&fewer, &some, never), 0);
    assert_eq!(cosine_similarity(&[], &some, never), 0);
    assert_eq!(cosine_similarity(&some, &[], never), 0);
    assert_eq!(cosine_similarity(&[], &[], never), 0);
    assert_eq!(f32::from_bits(0), 0.0);
    // A vector without length has no direction: the arithmetic gives 0.
    assert_eq!(cosine(&[0.0, 0.0], &[1.0, 2.0]), 0.0);
}

#[test]
fn float_rank_follows_the_order_of_the_floats() {
    let ordered = [
        f32::NEG_INFINITY,
        -1.0e30,
        -2.5,
        -1.0,
        -1.0e-30,
        0.0,
        1.0e-30,
        0.5,
        1.0,
        2.5,
        1.0e30,
        f32::INFINITY,
    ];
    for pair in ordered.windows(2) {
        assert!(float_rank(pair[0].to_bits()) < float_rank(pair[1].to_bits()));
    }
    assert_eq!(float_rank((-0.0f32).to_bits()), float_rank(0.0f32.to_bits()));
    assert_eq!(float_rank(0), 0x8000_0000);
    assert_eq!(float_rank(0x8000_0000), 0x8000_0000);
    assert_eq!(float_rank(1.0f32.to_bits()), 0xbf80_0000);
    assert_eq!(float_rank((-1.0f32).to_bits()), 0x407f_ffff);
}

#[test]
fn vector_search_is_unavailable_without_a_vector_index() {
    let mut index = SearchIndex::new();
    index.index_data("a", b"", None);
    assert!(index.vector_search(&bits(&[1.0, 0.0]), 3, kernel).is_none());
    assert!(!index.index_vector("a", &bits(&[1.0, 0.0])));
    index.build_vector_index(2);
    assert_eq!(index.vector_search(&bits(&[1.0, 0.0]), 3, kernel).unwrap().len(), 0);
}

#[test]
fn vector_search_ranks_by_similarity() {
    let mut index = SearchIndex::new();
    index.build_vector_index(2);
    assert!(index.index_vector("east", &bits(&[1.0, 0.0])));
    assert!(index.index_vector("north", &bits(&[0.0, 1.0])));
    assert!(index.index_vector("west", &bits(&[-1.0, 0.0])));
    assert!(index.index_vector("north-east", &bits(&[1.0, 1.0])));
    assert!(index.index_vector("south", &bits(&[0.0, -3.0])));
    // A vector of another dimension is refused.
    assert!(!index.index_vector("up", &bits(&[0.0, 0.0, 1.0])));
    let hits = index.vector_search(&bits(&[2.0, 0.0]), 10, kernel).unwrap();
    let keys: Vec<&str> = hits.iter().map(|h| h.key.as_str()).collect();
    // North and south are both at a right angle: they come in index order.
    assert_eq!(keys, vec!["east", "north-east", "north", "south", "west"]);
    assert_eq!(f32::from_bits(hits[0].score), 1.0);
    assert_eq!(f32::from_bits(hits[4].score), -1.0);
    let two = index.vector_search(&bits(&[2.0, 0.0]), 2, kernel).unwrap();
    let keys: Vec<&str> = two.iter().map(|h| h.key.as_str()).collect();
    assert_eq!(keys, vec!["east", "north-east"]);
    assert!(index.vector_search(&bits(&[2.0, 0.0]), 0, kernel).unwrap().is_empty());
}

#[test]
fn vector_index_replaces_the_vector_of_a_key() {
    let mut vectors = VectorIndex::new(1);
    assert_eq!(vectors.dimensions(), 1);
    assert!(vectors.insert("a", &bits(&[1.0])));
    assert!(vectors.insert("b", &bits(&[2.0])));
    assert!(vectors.insert("a", &bits(&[3.0])));
    assert!(!vectors.insert("c", &[]));
    assert_eq!(vectors.len(), 2);
    // The arithmetic here gives the first component of the vector itself.
    let hits = vectors.search(&bits(&[9.0]), 5, |_q: &[u32], v: &[u32]| v[0]);
    let found: Vec<(&str, f32)> = hits.iter().map(|h| (h.key.as_str(), f32::from_bits(h.score))).collect();
    assert_eq!(found, vec![("a", 3.0), ("b", 2.0)]);
    // A query of another dimension is as similar to every vector as to any other: not at all.
    let hits = vectors.search(&bits(&[1.0, 2.0]), 5, never);
    let found: Vec<(&str, u32)> = hits.iter().map(|h| (h.key.as_str(), h.score)).collect();
    assert_eq!(found, vec![("a", 0), ("b", 0)]);
}
