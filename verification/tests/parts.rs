//! Median selection and the list of neighbors.
use kd_index::neighbors::{Neighbor, Neighbors};
use kd_index::select::select_median;
use kd_index::{IndexedVector, Single};

fn single(x: f32) -> Single {
    Single { bits: x.to_bits() }
}

fn line(values: &[f32]) -> Vec<IndexedVector> {
    values
        .iter()
        .enumerate()
        .map(|(i, v)| IndexedVector { id: i as u128, vector: vec![single(0.0), single(*v)] })
        .collect()
}

fn value(v: &IndexedVector) -> f32 {
    f32::from_bits(v.vector[1].bits)
}

#[test]
fn the_median_is_where_sorting_puts_it() {
    let values: Vec<f32> = (0..101).map(|i| ((i * 37 + 11) % 29) as f32 - 14.0).collect();
    let mut sorted = values.clone();
    sorted.sort_by(|a, b| a.partial_cmp(b).unwrap());
    for mid in [0, 1, 50, 77, 100] {
        let mut vectors = line(&values);
        select_median(&mut vectors, mid, 1);
        assert_eq!(value(&vectors[mid]), sorted[mid]);
        assert!(vectors[..mid].iter().all(|v| value(v) <= sorted[mid]));
        assert!(vectors[mid + 1..].iter().all(|v| value(v) >= sorted[mid]));
        let mut ids: Vec<u128> = vectors.iter().map(|v| v.id).collect();
        ids.sort();
        assert_eq!(ids, (0..101).collect::<Vec<u128>>());
    }
}

#[test]
fn selection_among_equals_and_alone() {
    let mut equal = line(&[2.0; 9]);
    select_median(&mut equal, 4, 1);
    assert_eq!(value(&equal[4]), 2.0);
    let mut one = line(&[5.0]);
    select_median(&mut one, 0, 1);
    assert_eq!(value(&one[0]), 5.0);
}

#[test]
fn selection_keeps_everything_that_is_no_number() {
    let mut vectors = line(&[3.0, f32::NAN, 1.0, f32::NAN, 2.0]);
    select_median(&mut vectors, 2, 1);
    let mut ids: Vec<u128> = vectors.iter().map(|v| v.id).collect();
    ids.sort();
    assert_eq!(ids, vec![0, 1, 2, 3, 4]);
}

#[test]
fn the_farthest_neighbor_makes_room() {
    let mut best = Neighbors::new();
    let offers = [4.0, 2.0, 9.0, 3.0, 2.0, 11.0, 1.0];
    for (i, d) in offers.iter().enumerate() {
        best.offer(3, Neighbor { id: i as u128, distance: single(*d) });
    }
    let ids: Vec<u128> = best.items.iter().map(|n| n.id).collect();
    assert_eq!(ids, vec![6, 1, 4]);
    assert_eq!(best.offer(3, Neighbor { id: 9, distance: single(2.0) }), None);
    assert_eq!(best.offer(4, Neighbor { id: 9, distance: single(2.0) }), Some(3));
}
