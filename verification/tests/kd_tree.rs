//! Building, changing and searching an index.
use kd_index::{DbError, DenseVector, IndexedVector, KDTree, PointId, Similarity, Single};
use uuid::Uuid;

fn new_id() -> PointId {
    Uuid::new_v4().as_u128()
}

fn singles(values: &[f32]) -> DenseVector {
    values.iter().map(|v| Single { bits: v.to_bits() }).collect()
}

fn number(s: &Single) -> f32 {
    f32::from_bits(s.bits)
}

fn distance(a: &DenseVector, b: &DenseVector, similarity: Similarity) -> Single {
    let pairs = || a.iter().zip(b.iter()).map(|(x, y)| (number(x), number(y)));
    let d: f32 = match similarity {
        Similarity::Euclidean => pairs().map(|(x, y)| (x - y) * (x - y)).sum::<f32>().sqrt(),
        Similarity::Manhattan => pairs().map(|(x, y)| (x - y).abs()).sum(),
        Similarity::Cosine => {
            let dot: f32 = pairs().map(|(x, y)| x * y).sum();
            let na: f32 = pairs().map(|(x, _)| x * x).sum::<f32>().sqrt();
            let nb: f32 = pairs().map(|(_, y)| y * y).sum::<f32>().sqrt();
            1.0 - dot / (na * nb)
        }
        Similarity::Hamming => pairs().filter(|(x, y)| x != y).count() as f32,
    };
    Single { bits: d.to_bits() }
}

fn make_vector(vector: Vec<f32>) -> IndexedVector {
    IndexedVector { id: new_id(), vector: singles(&vector) }
}

fn make_vector_with_id(id: PointId, vector: Vec<f32>) -> IndexedVector {
    IndexedVector { id, vector: singles(&vector) }
}

// Build Tests

#[test]
fn test_build_empty() {
    let tree = KDTree::build_empty(3);
    assert!(tree.root.is_none());
    assert_eq!(tree.dim, 3);
    assert_eq!(tree.total_nodes, 0);
    assert!(tree.point_ids.is_empty());
}

#[test]
fn test_build_with_empty_vectors_returns_error() {
    let result = KDTree::build(vec![]);
    assert!(result.is_err());
}

#[test]
fn test_build_single_vector() {
    let id = new_id();
    let vectors = vec![make_vector_with_id(id, vec![1.0, 2.0, 3.0])];
    let tree = KDTree::build(vectors).unwrap();

    assert!(tree.root.is_some());
    assert_eq!(tree.dim, 3);
    assert_eq!(tree.total_nodes, 1);
    assert!(tree.point_ids.contains(&id));
}

#[test]
fn test_build_multiple_vectors() {
    let id1 = new_id();
    let id2 = new_id();
    let id3 = new_id();
    let vectors = vec![
        make_vector_with_id(id1, vec![1.0, 2.0]),
        make_vector_with_id(id2, vec![3.0, 4.0]),
        make_vector_with_id(id3, vec![5.0, 6.0]),
    ];
    let tree = KDTree::build(vectors).unwrap();

    assert!(tree.root.is_some());
    assert_eq!(tree.dim, 2);
    assert_eq!(tree.total_nodes, 3);
    assert!(tree.point_ids.contains(&id1));
    assert!(tree.point_ids.contains(&id2));
    assert!(tree.point_ids.contains(&id3));
}

// Insert Tests

#[test]
fn test_insert_into_empty_tree() {
    let mut tree = KDTree::build_empty(2);
    let id = new_id();
    let vector = make_vector_with_id(id, vec![1.0, 2.0]);

    let result = tree.insert(vector);
    assert!(result.is_ok());
    assert_eq!(tree.total_nodes, 1);
    assert!(tree.point_ids.contains(&id));
    assert!(tree.root.is_some());
}

#[test]
fn test_insert_multiple_vectors() {
    let mut tree = KDTree::build_empty(2);
    let id1 = new_id();
    let id2 = new_id();
    let id3 = new_id();

    tree.insert(make_vector_with_id(id1, vec![1.0, 2.0]))
        .unwrap();
    tree.insert(make_vector_with_id(id2, vec![3.0, 4.0]))
        .unwrap();
    tree.insert(make_vector_with_id(id3, vec![5.0, 6.0]))
        .unwrap();

    assert_eq!(tree.total_nodes, 3);
    assert!(tree.point_ids.contains(&id1));
    assert!(tree.point_ids.contains(&id2));
    assert!(tree.point_ids.contains(&id3));
}

// Delete Tests

#[test]
fn test_delete_existing_point() {
    let mut ids = Vec::new();
    let mut vectors = Vec::new();

    // Create enough vectors so deleting one doesn't trigger global rebuild
    for i in 0..10 {
        let id = new_id();
        ids.push(id);
        vectors.push(make_vector_with_id(id, vec![i as f32, i as f32]));
    }

    let mut tree = KDTree::build(vectors).unwrap();

    let result = tree.delete(ids[0]).unwrap();
    assert!(result);
    assert!(!tree.point_ids.contains(&ids[0]));
    assert_eq!(tree.deleted_count, 1);
}

#[test]
fn test_delete_non_existing_point() {
    let id1 = new_id();
    let vectors = vec![make_vector_with_id(id1, vec![1.0, 2.0])];
    let mut tree = KDTree::build(vectors).unwrap();

    let non_existing_id = new_id();
    let result = tree.delete(non_existing_id).unwrap();
    assert!(!result);
    assert_eq!(tree.deleted_count, 0);
}

#[test]
fn test_delete_from_empty_tree() {
    let mut tree = KDTree::build_empty(2);
    let result = tree.delete(new_id()).unwrap();
    assert!(!result);
}

#[test]
fn test_deleted_point_not_in_search_results() {
    let id1 = new_id();
    let id2 = new_id();
    let id3 = new_id();
    let vectors = vec![
        make_vector_with_id(id1, vec![0.0, 0.0]),
        make_vector_with_id(id2, vec![1.0, 1.0]),
        make_vector_with_id(id3, vec![10.0, 10.0]),
    ];
    let mut tree = KDTree::build(vectors).unwrap();

    // Delete the closest point
    tree.delete(id1).unwrap();

    // Search should not return the deleted point
    let results = tree
        .search(singles(&vec![0.0, 0.0]), Similarity::Euclidean, 2, &distance)
        .unwrap();
    assert!(!results.contains(&id1));
    assert!(results.contains(&id2));
}

// Search Tests (VectorIndex trait)

#[test]
fn test_search_empty_tree() {
    let tree = KDTree::build_empty(2);
    let results = tree
        .search(singles(&vec![1.0, 2.0]), Similarity::Euclidean, 5, &distance)
        .unwrap();
    assert!(results.is_empty());
}

#[test]
fn test_search_euclidean() {
    let id1 = new_id();
    let id2 = new_id();
    let id3 = new_id();
    let vectors = vec![
        make_vector_with_id(id1, vec![1.0, 1.0]),
        make_vector_with_id(id2, vec![2.0, 2.0]),
        make_vector_with_id(id3, vec![10.0, 10.0]),
    ];
    let tree = KDTree::build(vectors).unwrap();

    let results = tree
        .search(singles(&vec![0.0, 0.0]), Similarity::Euclidean, 2, &distance)
        .unwrap();
    assert_eq!(results.len(), 2);
    assert_eq!(results[0], id1); // Closest
    assert_eq!(results[1], id2); // Second closest
}

#[test]
fn test_search_manhattan() {
    let id1 = new_id();
    let id2 = new_id();
    let id3 = new_id();
    let vectors = vec![
        make_vector_with_id(id1, vec![1.0, 1.0]),
        make_vector_with_id(id2, vec![2.0, 2.0]),
        make_vector_with_id(id3, vec![5.0, 5.0]),
    ];
    let tree = KDTree::build(vectors).unwrap();

    let results = tree
        .search(singles(&vec![0.0, 0.0]), Similarity::Manhattan, 2, &distance)
        .unwrap();
    assert_eq!(results.len(), 2);
    assert_eq!(results[0], id1);
    assert_eq!(results[1], id2);
}

#[test]
fn test_search_unsupported_similarity_cosine() {
    let vectors = vec![make_vector(vec![1.0, 2.0])];
    let tree = KDTree::build(vectors).unwrap();

    let result = tree.search(singles(&vec![1.0, 2.0]), Similarity::Cosine, 1, &distance);
    assert!(matches!(result, Err(DbError::UnsupportedSimilarity)));
}

#[test]
fn test_search_unsupported_similarity_hamming() {
    let vectors = vec![make_vector(vec![1.0, 2.0])];
    let tree = KDTree::build(vectors).unwrap();

    let result = tree.search(singles(&vec![1.0, 2.0]), Similarity::Hamming, 1, &distance);
    assert!(matches!(result, Err(DbError::UnsupportedSimilarity)));
}

#[test]
fn test_search_k_larger_than_tree_size() {
    let id1 = new_id();
    let id2 = new_id();
    let vectors = vec![
        make_vector_with_id(id1, vec![1.0, 1.0]),
        make_vector_with_id(id2, vec![2.0, 2.0]),
    ];
    let tree = KDTree::build(vectors).unwrap();

    let results = tree
        .search(singles(&vec![0.0, 0.0]), Similarity::Euclidean, 10, &distance)
        .unwrap();
    assert_eq!(results.len(), 2); // Should return all available points
}

#[test]
fn test_search_exact_match() {
    let id1 = new_id();
    let id2 = new_id();
    let vectors = vec![
        make_vector_with_id(id1, vec![5.0, 5.0]),
        make_vector_with_id(id2, vec![10.0, 10.0]),
    ];
    let tree = KDTree::build(vectors).unwrap();

    let results = tree
        .search(singles(&vec![5.0, 5.0]), Similarity::Euclidean, 1, &distance)
        .unwrap();
    assert_eq!(results.len(), 1);
    assert_eq!(results[0], id1);
}

// Search Correctness Tests

#[test]
fn test_search_correctness_3d() {
    let id1 = new_id();
    let id2 = new_id();
    let id3 = new_id();
    let id4 = new_id();
    let vectors = vec![
        make_vector_with_id(id1, vec![0.0, 0.0, 0.0]),
        make_vector_with_id(id2, vec![1.0, 1.0, 1.0]),
        make_vector_with_id(id3, vec![2.0, 2.0, 2.0]),
        make_vector_with_id(id4, vec![10.0, 10.0, 10.0]),
    ];
    let tree = KDTree::build(vectors).unwrap();

    let results = tree
        .search(singles(&vec![0.5, 0.5, 0.5]), Similarity::Euclidean, 2, &distance)
        .unwrap();
    // id1 at distance sqrt(0.75) ≈ 0.866
    // id2 at distance sqrt(0.75) ≈ 0.866
    // Both are equidistant, should return both
    assert_eq!(results.len(), 2);
    assert!(results.contains(&id1) || results.contains(&id2));
}

#[test]
fn test_search_after_insert() {
    let mut tree = KDTree::build_empty(2);
    let id1 = new_id();
    let id2 = new_id();
    let id3 = new_id();

    tree.insert(make_vector_with_id(id1, vec![10.0, 10.0]))
        .unwrap();
    tree.insert(make_vector_with_id(id2, vec![1.0, 1.0]))
        .unwrap();
    tree.insert(make_vector_with_id(id3, vec![5.0, 5.0]))
        .unwrap();

    let results = tree
        .search(singles(&vec![0.0, 0.0]), Similarity::Euclidean, 2, &distance)
        .unwrap();
    assert_eq!(results[0], id2); // Closest to origin
    assert_eq!(results[1], id3); // Second closest
}

#[test]
fn test_search_high_dimensional() {
    let dim = 10;
    let id1 = new_id();
    let id2 = new_id();

    let vectors = vec![
        make_vector_with_id(id1, vec![0.0; dim]),
        make_vector_with_id(id2, vec![1.0; dim]),
    ];
    let tree = KDTree::build(vectors).unwrap();

    let query = vec![0.1; dim];
    let results = tree.search(singles(&query), Similarity::Euclidean, 1, &distance).unwrap();
    assert_eq!(results[0], id1); // Closer to all-zeros
}

// Rebalancing Tests

#[test]
fn test_many_inserts_maintains_searchability() {
    let mut tree = KDTree::build_empty(2);
    let mut ids = Vec::new();

    // Insert many points that would cause imbalance
    for i in 0..20 {
        let id = new_id();
        ids.push(id);
        tree.insert(make_vector_with_id(id, vec![i as f32, i as f32]))
            .unwrap();
    }

    // Search should still work correctly
    let results = tree
        .search(singles(&vec![0.0, 0.0]), Similarity::Euclidean, 5, &distance)
        .unwrap();
    assert_eq!(results.len(), 5);
    // First result should be the point at (0, 0)
    assert_eq!(results[0], ids[0]);
}

#[test]
fn test_delete_triggers_rebuild() {
    let mut ids = Vec::new();
    let mut vectors = Vec::new();

    for i in 0..10 {
        let id = new_id();
        ids.push(id);
        vectors.push(make_vector_with_id(id, vec![i as f32, i as f32]));
    }

    let mut tree = KDTree::build(vectors).unwrap();

    // Delete enough points to trigger rebuild (> 25%)
    for id in ids.iter().take(3) {
        tree.delete(*id).unwrap();
    }

    // Tree should still function correctly
    let results = tree
        .search(singles(&vec![5.0, 5.0]), Similarity::Euclidean, 3, &distance)
        .unwrap();
    assert_eq!(results.len(), 3);
    // Deleted points should not appear
    for id in ids.iter().take(3) {
        assert!(!results.contains(id));
    }
}

// Edge Cases

#[test]
fn test_single_point_search() {
    let id = new_id();
    let vectors = vec![make_vector_with_id(id, vec![5.0, 5.0])];
    let tree = KDTree::build(vectors).unwrap();

    let results = tree
        .search(singles(&vec![0.0, 0.0]), Similarity::Euclidean, 1, &distance)
        .unwrap();
    assert_eq!(results.len(), 1);
    assert_eq!(results[0], id);
}

#[test]
fn test_duplicate_coordinates() {
    let id1 = new_id();
    let id2 = new_id();
    let id3 = new_id();
    let vectors = vec![
        make_vector_with_id(id1, vec![1.0, 1.0]),
        make_vector_with_id(id2, vec![1.0, 1.0]), // Same coordinates
        make_vector_with_id(id3, vec![2.0, 2.0]),
    ];
    let tree = KDTree::build(vectors).unwrap();

    let results = tree
        .search(singles(&vec![1.0, 1.0]), Similarity::Euclidean, 2, &distance)
        .unwrap();
    assert_eq!(results.len(), 2);
    // Both id1 and id2 should be in results (both at distance 0)
    assert!(results.contains(&id1) || results.contains(&id2));
}

#[test]
fn test_negative_coordinates() {
    let id1 = new_id();
    let id2 = new_id();
    let vectors = vec![
        make_vector_with_id(id1, vec![-1.0, -1.0]),
        make_vector_with_id(id2, vec![1.0, 1.0]),
    ];
    let tree = KDTree::build(vectors).unwrap();

    let results = tree
        .search(singles(&vec![-0.5, -0.5]), Similarity::Euclidean, 1, &distance)
        .unwrap();
    assert_eq!(results[0], id1);
}

#[test]
fn test_search_with_zero_k() {
    let vectors = vec![make_vector(vec![1.0, 2.0])];
    let tree = KDTree::build(vectors).unwrap();

    let results = tree
        .search(singles(&vec![1.0, 2.0]), Similarity::Euclidean, 0, &distance)
        .unwrap();
    assert!(results.is_empty());
}
