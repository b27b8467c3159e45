//! What holds of the index as a whole, on concrete values.
use kd_index::{
    DbError, DenseVector, IndexedVector, KDTree, KDTreeNode, PointId, Similarity, Single,
};

fn singles(values: &[f32]) -> DenseVector {
    values.iter().map(|v| Single { bits: v.to_bits() }).collect()
}

fn number(s: &Single) -> f32 {
    f32::from_bits(s.bits)
}

fn point(id: PointId, values: &[f32]) -> IndexedVector {
    IndexedVector { id, vector: singles(values) }
}

fn distance(a: &DenseVector, b: &DenseVector, similarity: Similarity) -> Single {
    let pairs = || a.iter().zip(b.iter()).map(|(x, y)| (number(x), number(y)));
    let d: f32 = match similarity {
        Similarity::Euclidean => pairs().map(|(x, y)| (x - y) * (x - y)).sum::<f32>().sqrt(),
        Similarity::Manhattan => pairs().map(|(x, y)| (x - y).abs()).sum(),
        Similarity::Cosine => -pairs().map(|(x, y)| x * y).sum::<f32>(),
        Similarity::Hamming => pairs().filter(|(x, y)| x != y).count() as f32,
    };
    Single { bits: d.to_bits() }
}

/// Coordinates that repeat, in no order.
fn scattered(i: usize) -> [f32; 3] {
    let x = (i * 7919 + 13) % 101;
    let y = (i * 104729 + 7) % 53;
    let z = (i * 1299709 + 5) % 17;
    [x as f32 * 0.5 - 20.0, y as f32, z as f32 * -1.25]
}

fn grown(n: usize) -> KDTree {
    let mut tree = KDTree::build_empty(3);
    for i in 0..n {
        tree.insert(point(i as PointId, &scattered(i))).unwrap();
    }
    tree
}

fn built(n: usize) -> KDTree {
    KDTree::build((0..n).map(|i| point(i as PointId, &scattered(i))).collect()).unwrap()
}

/// All distances from a query, by brute force, the smallest first.
fn sorted_distances(ids: &[usize], query: &[f32], similarity: Similarity) -> Vec<f32> {
    let q = singles(query);
    let mut all: Vec<f32> =
        ids.iter().map(|i| number(&distance(&q, &singles(&scattered(*i)), similarity))).collect();
    all.sort_by(|a, b| a.partial_cmp(b).unwrap());
    all
}

fn found_distances(tree: &KDTree, query: &[f32], k: usize, similarity: Similarity) -> Vec<f32> {
    let found = tree.search_top_k(singles(query), k, similarity, &distance);
    found.iter().map(|(_, d)| number(d)).collect()
}

fn nodes(link: &Option<Box<KDTreeNode>>) -> usize {
    match link {
        None => 0,
        Some(node) => 1 + nodes(&node.left) + nodes(&node.right),
    }
}

fn sizes_agree(link: &Option<Box<KDTreeNode>>) -> bool {
    match link {
        None => true,
        Some(node) => {
            node.subtree_size == nodes(link) && sizes_agree(&node.left) && sizes_agree(&node.right)
        }
    }
}

fn balanced(link: &Option<Box<KDTreeNode>>) -> bool {
    match link {
        None => true,
        Some(node) => {
            let child = nodes(&node.left).max(nodes(&node.right));
            child as f32 <= 0.7f32 * node.subtree_size as f32
                && balanced(&node.left)
                && balanced(&node.right)
        }
    }
}

fn deleted(link: &Option<Box<KDTreeNode>>) -> usize {
    match link {
        None => 0,
        Some(node) => node.is_deleted as usize + deleted(&node.left) + deleted(&node.right),
    }
}

#[test]
fn search_finds_the_nearest() {
    let all: Vec<usize> = (0..300).collect();
    let queries = [[0.0, 0.0, 0.0], [-7.25, 30.0, -3.0], [100.0, -5.0, 2.0], [5.5, 26.0, -10.0]];
    for tree in [built(300), grown(300)] {
        for query in queries {
            for k in [1, 2, 7, 50, 299, 300, 400] {
                for similarity in [
                    Similarity::Euclidean,
                    Similarity::Manhattan,
                    Similarity::Cosine,
                    Similarity::Hamming,
                ] {
                    let expected = sorted_distances(&all, &query, similarity);
                    let found = found_distances(&tree, &query, k, similarity);
                    assert_eq!(found.len(), k.min(300));
                    assert_eq!(found[..], expected[..found.len()]);
                }
            }
        }
    }
}

#[test]
fn search_for_all_returns_all() {
    let tree = grown(40);
    let query = singles(&[1.0, 2.0, 3.0]);
    let mut ids = tree.search(query, Similarity::Manhattan, 40, &distance).unwrap();
    ids.sort();
    assert_eq!(ids, (0..40).collect::<Vec<PointId>>());
}

#[test]
fn search_returns_what_is_left_after_deletions() {
    let mut tree = built(200);
    for i in (0..200).step_by(3) {
        assert_eq!(tree.delete(i as PointId), Ok(true));
        assert_eq!(tree.delete(i as PointId), Ok(false));
    }
    let left: Vec<usize> = (0..200).filter(|i| i % 3 != 0).collect();
    let expected = sorted_distances(&left, &[3.0, 20.0, -8.0], Similarity::Euclidean);
    let found = found_distances(&tree, &[3.0, 20.0, -8.0], 500, Similarity::Euclidean);
    assert_eq!(found, expected);
    let query = singles(&[3.0, 20.0, -8.0]);
    let ids = tree.search(query, Similarity::Euclidean, 500, &distance).unwrap();
    assert!(ids.iter().all(|id| id % 3 != 0));
}

#[test]
fn deleting_undoes_inserting() {
    let mut tree = grown(60);
    let before = found_distances(&tree, &[0.0, 10.0, 0.0], 100, Similarity::Euclidean);
    tree.insert_point(point(1000, &[0.25, 10.0, 0.0]));
    assert!(tree.point_ids.contains(&1000));
    let with = found_distances(&tree, &[0.0, 10.0, 0.0], 100, Similarity::Euclidean);
    assert_eq!(with.len(), before.len() + 1);
    assert!(with.contains(&0.25));
    assert!(tree.delete_point(&1000));
    assert!(!tree.point_ids.contains(&1000));
    assert_eq!(found_distances(&tree, &[0.0, 10.0, 0.0], 100, Similarity::Euclidean), before);
}

#[test]
fn sizes_and_counts_agree_throughout() {
    let mut tree = KDTree::build_empty(3);
    for i in 0..150 {
        tree.insert_point(point(i as PointId, &scattered(i)));
        if i % 4 == 3 {
            assert!(tree.delete_point(&((i - 2) as PointId)));
        }
        assert!(sizes_agree(&tree.root));
        assert_eq!(tree.total_nodes, nodes(&tree.root));
        assert_eq!(tree.deleted_count, deleted(&tree.root));
        assert_eq!(tree.point_ids.len(), tree.total_nodes - tree.deleted_count);
    }
}

#[test]
fn deletions_stay_within_a_quarter() {
    let mut tree = built(100);
    for i in 0..100 {
        assert!(tree.delete_point(&i));
        if tree.total_nodes > 0 {
            assert!(tree.deleted_count as f32 / tree.total_nodes as f32 <= 0.25);
        }
    }
    assert_eq!(tree.total_nodes, 0);
    assert_eq!(tree.deleted_count, 0);
    assert!(tree.root.is_none());
    assert!(tree.point_ids.is_empty());
}

#[test]
fn a_rebuild_drops_what_was_deleted() {
    let mut tree = built(10);
    assert!(tree.delete_point(&0));
    assert!(tree.delete_point(&1));
    assert_eq!((tree.total_nodes, tree.deleted_count), (10, 2));
    assert!(tree.delete_point(&2));
    assert_eq!((tree.total_nodes, tree.deleted_count), (7, 0));
    assert_eq!(deleted(&tree.root), 0);
}

#[test]
fn built_and_grown_trees_are_balanced() {
    for n in 1..80 {
        assert!(balanced(&built(n).root));
        assert!(balanced(&grown(n).root));
    }
    // One long run along a line.
    let mut tree = KDTree::build_empty(1);
    for i in 0..500 {
        tree.insert_point(point(i as PointId, &[i as f32]));
        assert!(balanced(&tree.root));
    }
}

#[test]
fn deleting_keeps_the_balance() {
    let mut tree = grown(120);
    for i in 0..120 {
        assert!(tree.delete_point(&i));
        assert!(balanced(&tree.root));
    }
}

#[test]
fn a_built_tree_halves_its_points() {
    let tree = built(10);
    let root = tree.root.as_ref().unwrap();
    assert_eq!(root.subtree_size, 10);
    assert_eq!(root.left.as_ref().unwrap().subtree_size, 5);
    assert_eq!(root.right.as_ref().unwrap().subtree_size, 4);
}

#[test]
fn building_leaves_vacant_slots() {
    let mut vectors: Vec<IndexedVector> =
        (0..5).map(|i| point(i as PointId, &scattered(i))).collect();
    let root = KDTree::build_recursive(&mut vectors, 4, 3);
    assert_eq!(root.subtree_size, 5);
    assert_eq!(vectors.len(), 5);
    for slot in &vectors {
        assert!(slot.vector.is_empty());
        // A random identifier of version 4.
        assert_eq!((slot.id >> 76) & 0xf, 4);
        assert_eq!((slot.id >> 62) & 3, 2);
    }
    for i in 0..5 {
        for j in 0..i {
            assert_ne!(vectors[i].id, vectors[j].id);
        }
    }
}

#[test]
fn the_axis_follows_the_depth() {
    // The second axis splits at depth 4 of 3 axes.
    let mut vectors = vec![
        point(1, &[0.0, 3.0, 0.0]),
        point(2, &[1.0, 1.0, 0.0]),
        point(3, &[2.0, 2.0, 0.0]),
    ];
    let root = KDTree::build_recursive(&mut vectors, 4, 3);
    assert_eq!(root.indexed_vector.id, 3);
    assert_eq!(root.left.as_ref().unwrap().indexed_vector.id, 2);
    assert_eq!(root.right.as_ref().unwrap().indexed_vector.id, 1);
}

#[test]
fn equal_coordinates_go_left() {
    let mut tree = KDTree::build_empty(2);
    tree.insert_point(point(1, &[1.0, 0.0]));
    tree.insert_point(point(2, &[1.0, 5.0]));
    tree.insert_point(point(3, &[1.5, 0.0]));
    let root = tree.root.as_ref().unwrap();
    assert_eq!(root.indexed_vector.id, 1);
    assert_eq!(root.left.as_ref().unwrap().indexed_vector.id, 2);
    assert_eq!(root.right.as_ref().unwrap().indexed_vector.id, 3);
}

#[test]
fn the_topmost_unbalanced_subtree_is_rebuilt() {
    let mut tree = KDTree::build_empty(1);
    for i in 0..3 {
        tree.insert_point(point(i, &[i as f32]));
    }
    // Three in a row: two of three is within seven tenths.
    let root = tree.root.as_ref().unwrap();
    assert_eq!(root.indexed_vector.id, 0);
    assert_eq!(root.right.as_ref().unwrap().subtree_size, 2);
    tree.insert_point(point(3, &[3.0]));
    // Three of four is not.
    let root = tree.root.as_ref().unwrap();
    assert_eq!(root.indexed_vector.id, 2);
    assert_eq!(root.left.as_ref().unwrap().subtree_size, 2);
    assert_eq!(root.right.as_ref().unwrap().subtree_size, 1);
}

#[test]
fn a_rebuild_below_the_root_lowers_the_sizes_above() {
    let mut tree = KDTree::build_empty(1);
    for (i, x) in [50.0, 20.0, 80.0, 10.0, 30.0, 70.0, 90.0].iter().enumerate() {
        tree.insert_point(point(i as PointId, &[*x]));
    }
    assert!(tree.delete_point(&6));
    assert_eq!((tree.total_nodes, tree.deleted_count), (7, 1));
    // A chain to the right of the deleted node.
    tree.insert_point(point(10, &[91.0]));
    tree.insert_point(point(11, &[92.0]));
    tree.insert_point(point(12, &[93.0]));
    assert!(sizes_agree(&tree.root));
    assert_eq!(tree.total_nodes, nodes(&tree.root));
    assert_eq!((tree.total_nodes, tree.deleted_count), (9, 0));
    assert_eq!(deleted(&tree.root), 0);
    assert_eq!(tree.root.as_ref().unwrap().indexed_vector.id, 0);
}

#[test]
fn an_identifier_given_twice_is_deleted_once() {
    let mut tree = built(20);
    tree.insert_point(point(500, &[1.0, 1.0, 1.0]));
    tree.insert_point(point(500, &[2.0, 2.0, 2.0]));
    assert_eq!(tree.delete(500), Ok(true));
    assert_eq!(tree.delete(500), Ok(false));
    let query = singles(&[0.0, 0.0, 0.0]);
    let ids = tree.search(query, Similarity::Euclidean, 100, &distance).unwrap();
    assert_eq!(ids.iter().filter(|id| **id == 500).count(), 1);
}

#[test]
fn an_identifier_inserted_again_is_deleted_again() {
    let mut tree = built(20);
    assert_eq!(tree.delete(7), Ok(true));
    tree.insert_point(point(7, &scattered(7)));
    assert_eq!(tree.deleted_count, 1);
    assert_eq!(tree.delete(7), Ok(true));
    assert_eq!(tree.deleted_count, 2);
    assert_eq!(deleted(&tree.root), 2);
    assert!(!tree.point_ids.contains(&7));
    let query = singles(&scattered(7));
    let ids = tree.search(query, Similarity::Euclidean, 100, &distance).unwrap();
    assert_eq!(ids.len(), 19);
    assert!(!ids.contains(&7));
    assert_eq!(tree.delete(7), Ok(false));
}

#[test]
fn the_new_point_goes_where_an_older_one_was_deleted() {
    let line = (0..10).map(|i| point(i as PointId, &[i as f32, i as f32])).collect();
    let mut tree = KDTree::build(line).unwrap();
    assert!(tree.delete_point(&0));
    tree.insert_point(point(0, &[20.0, 20.0]));
    assert!(tree.delete_point(&0));
    let found = tree.search_top_k(singles(&[20.0, 20.0]), 1, Similarity::Euclidean, &distance);
    assert_eq!(found.len(), 1);
    assert_eq!(found[0].0, 9);
    assert!(!tree.delete_point(&0));
}

#[test]
fn identifiers_tell_the_points_throughout() {
    let mut tree = built(30);
    for round in 0..300usize {
        let id = (round * 11 % 37) as PointId;
        if tree.point_ids.contains(&id) {
            assert!(tree.delete_point(&id));
        } else {
            assert!(!tree.delete_point(&id));
            tree.insert_point(point(id, &scattered(round)));
        }
        assert!(sizes_agree(&tree.root));
        assert_eq!(tree.total_nodes, nodes(&tree.root));
        assert_eq!(tree.deleted_count, deleted(&tree.root));
        let query = singles(&[0.0, 0.0, 0.0]);
        let mut ids = tree.search(query, Similarity::Euclidean, 100, &distance).unwrap();
        let mut known: Vec<PointId> = tree.point_ids.iter().copied().collect();
        ids.sort();
        known.sort();
        assert_eq!(ids, known);
    }
}

#[test]
fn more_points_begin_with_the_fewer() {
    let tree = grown(120);
    for similarity in [Similarity::Euclidean, Similarity::Manhattan, Similarity::Hamming] {
        let all = found_distances(&tree, &[2.5, 11.0, -4.0], 120, similarity);
        for j in [0, 1, 5, 60, 119, 200] {
            let fewer = found_distances(&tree, &[2.5, 11.0, -4.0], j, similarity);
            assert_eq!(fewer[..], all[..j.min(120)]);
        }
    }
}

#[test]
fn the_same_points_give_the_same_answer() {
    let mut a = built(90);
    let mut b = KDTree::build_empty(3);
    for i in (0..80).rev() {
        b.insert_point(point(i as PointId, &scattered(i)));
    }
    for i in 80..90 {
        assert!(a.delete_point(&i));
    }
    let query = [1.0, 30.0, -2.0];
    for k in [1, 10, 80] {
        let from_a = found_distances(&a, &query, k, Similarity::Manhattan);
        assert_eq!(from_a, found_distances(&b, &query, k, Similarity::Manhattan));
    }
    // No two of these are equally far from the query.
    let line = |order: Vec<usize>| -> Vec<IndexedVector> {
        order.iter().map(|i| point(*i as PointId, &[(*i * *i) as f32, *i as f32])).collect()
    };
    let up = KDTree::build(line((0..40).collect())).unwrap();
    let down = KDTree::build(line((0..40).rev().collect())).unwrap();
    let query = singles(&[0.0, 0.0]);
    let ids = up.search(query.clone(), Similarity::Euclidean, 25, &distance).unwrap();
    assert_eq!(ids, (0..25).collect::<Vec<PointId>>());
    assert_eq!(down.search(query, Similarity::Euclidean, 25, &distance).unwrap(), ids);
}

fn collect(link: &Option<Box<KDTreeNode>>, into: &mut Vec<(PointId, usize)>, depth: usize) {
    if let Some(node) = link {
        into.push((node.indexed_vector.id, depth));
        collect(&node.left, into, depth + 1);
        collect(&node.right, into, depth + 1);
    }
}

#[test]
fn distinct_points_build_one_tree() {
    // All coordinates differ on every axis.
    let make = |order: Vec<usize>| {
        let vectors =
            order.iter().map(|i| point(*i as PointId, &[(*i * 29 % 53) as f32, *i as f32]));
        KDTree::build(vectors.collect()).unwrap()
    };
    let (mut a, mut b) = (Vec::new(), Vec::new());
    collect(&make((0..53).collect()).root, &mut a, 0);
    collect(&make((0..53).rev().collect()).root, &mut b, 0);
    assert_eq!(a, b);
}

#[test]
fn collecting_undoes_building() {
    let tree = built(45);
    let mut found = Vec::new();
    collect(&tree.root, &mut found, 0);
    let mut ids: Vec<PointId> = found.iter().map(|(id, _)| *id).collect();
    ids.sort();
    assert_eq!(ids, (0..45).collect::<Vec<PointId>>());
}

#[test]
fn nothing_is_built_from_nothing() {
    assert!(matches!(KDTree::build(Vec::new()), Err(DbError::IndexInitError)));
}

#[test]
fn some_measures_cannot_be_searched_by() {
    let tree = KDTree::build_empty(0);
    for similarity in [Similarity::Cosine, Similarity::Hamming] {
        let found = tree.search(Vec::new(), similarity, 3, &distance);
        assert_eq!(found, Err(DbError::UnsupportedSimilarity));
    }
    assert_eq!(tree.search(Vec::new(), Similarity::Euclidean, 3, &distance), Ok(Vec::new()));
}

#[test]
fn coordinates_that_are_no_numbers_are_kept() {
    let mut tree = KDTree::build_empty(2);
    for i in 0..30 {
        let x = if i % 5 == 0 { f32::NAN } else { i as f32 };
        tree.insert_point(point(i, &[x, -x]));
    }
    assert!(sizes_agree(&tree.root));
    assert_eq!(tree.total_nodes, 30);
    let mut ids = tree.search(singles(&[1.0, 1.0]), Similarity::Euclidean, 30, &distance).unwrap();
    ids.sort();
    assert_eq!(ids, (0..30).collect::<Vec<PointId>>());
    assert!(tree.delete_point(&10));
}

#[test]
fn a_tree_without_axes_holds_one_point() {
    let mut tree = KDTree::build_empty(0);
    tree.insert_point(point(3, &[]));
    assert_eq!(tree.total_nodes, 1);
    assert!(tree.delete_point(&3));
    assert_eq!(tree.total_nodes, 0);
    assert!(tree.root.is_none());
}

#[test]
fn distances_come_with_the_identifiers() {
    let tree = built(1);
    let query = singles(&[-13.5, 7.0, -6.25]);
    let found = tree.search_top_k(query, 4, Similarity::Manhattan, &distance);
    assert_eq!(found.len(), 1);
    assert_eq!(found[0].0, 0);
    assert_eq!(number(&found[0].1), 0.0);
    let query = singles(&[0.0, 0.0, 0.0]);
    assert!(tree.search_top_k(query, 0, Similarity::Hamming, &distance).is_empty());
}

#[test]
fn distances_that_underflow_do_no_harm() {
    // The squares of these differences are zero in single precision.
    let tiny = |i: usize| [i as f32 * 1e-30, (40 - i) as f32 * 1e-30];
    let mut tree = KDTree::build_empty(2);
    for i in 0..40 {
        tree.insert_point(point(i as PointId, &tiny(i)));
    }
    tree.insert_point(point(100, &[1.0, 1.0]));
    let found = found_distances(&tree, &[0.0, 0.0], 41, Similarity::Euclidean);
    assert_eq!(found[..40], [0.0; 40]);
    for k in [1, 7, 40] {
        let fewer = found_distances(&tree, &[0.0, 0.0], k, Similarity::Euclidean);
        assert_eq!(fewer[..], found[..k]);
    }
}

#[test]
fn distances_that_overflow_do_no_harm() {
    let far = |i: usize| [(i as f32 - 10.0) * 3e37, if i % 3 == 0 { f32::MAX } else { 1e-40 }];
    let mut tree = KDTree::build_empty(2);
    for i in 0..20 {
        tree.insert_point(point(i as PointId, &far(i)));
    }
    for query in [[0.0, 0.0], [-3e38, f32::MIN], [1e-40, 1e-40]] {
        for similarity in [Similarity::Euclidean, Similarity::Manhattan] {
            let q = singles(&query);
            let mut expected: Vec<f32> =
                (0..20).map(|i| number(&distance(&q, &singles(&far(i)), similarity))).collect();
            expected.sort_by(|a, b| a.partial_cmp(b).unwrap());
            for k in [1, 5, 20] {
                assert_eq!(found_distances(&tree, &query, k, similarity)[..], expected[..k]);
            }
        }
    }
}
