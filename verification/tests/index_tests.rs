//! Index behaviour: construction guards, batch admission, tombstoning,
//! versioning and the search scenarios.

use rust_annie::index::AnnIndex;
use rust_annie::metrics::Distance;
use rust_annie::filters::Filter;

fn bits(v: &[f32]) -> Vec<u32> {
    v.iter().map(|x| x.to_bits()).collect()
}

fn rows(vs: &[&[f32]]) -> Vec<Vec<u32>> {
    vs.iter().map(|r| bits(r)).collect()
}

fn dists_f32(d: &[u32]) -> Vec<f32> {
    d.iter().map(|b| f32::from_bits(*b)).collect()
}

#[test]
fn test_security_invalid_input() {
    let index = AnnIndex::new(0, Distance::Euclidean);
    assert!(index.is_err(), "Should not allow zero dimension");
    let index = AnnIndex::new(10000, Distance::Euclidean);
    assert!(index.is_err(), "Should not allow excessive dimension");
}

#[test]
fn test_security_boundary_checks() {
    let mut index = AnnIndex::new(3, Distance::Euclidean).unwrap();
    index
        .add(rows(&[&[1.0, 2.0, 3.0]]), vec![1])
        .unwrap();
    let query = bits(&[1.0, 2.0]);
    let result = index.search(&query, 1, None);
    assert!(result.is_err(), "Should error on wrong query dimension");
}

#[test]
fn test_security_dos_attempt() {
    let mut index = AnnIndex::new(3, Distance::Euclidean).unwrap();
    let big_vecs: Vec<Vec<u32>> = vec![bits(&[1.0, 1.0, 1.0]); 1_000_001];
    let big_ids = (0..1_000_001).collect::<Vec<i64>>();
    let result = index.add(big_vecs, big_ids);
    assert!(result.is_err(), "Should error on excessive allocation");
}

#[test]
fn euclidean_scenario_three_points() {
    // dim 3, ids 10/20/30 at [0,0,0],[1,1,1],[2,2,2]; two nearest to origin
    let mut index = AnnIndex::new(3, Distance::Euclidean).unwrap();
    index
        .add(
            rows(&[&[0.0, 0.0, 0.0], &[1.0, 1.0, 1.0], &[2.0, 2.0, 2.0]]),
            vec![10, 20, 30],
        )
        .unwrap();
    let (ids, dists) = index.search(&bits(&[0.0, 0.0, 0.0]), 2, None).unwrap();
    assert_eq!(ids, vec![10, 20]);
    let d = dists_f32(&dists);
    assert!((d[0] - 0.0).abs() < 1e-6);
    assert!((d[1] - 1.732).abs() < 1e-3);
}

#[test]
fn euclidean_scenario_after_remove() {
    let mut index = AnnIndex::new(3, Distance::Euclidean).unwrap();
    index
        .add(
            rows(&[&[0.0, 0.0, 0.0], &[1.0, 1.0, 1.0], &[2.0, 2.0, 2.0]]),
            vec![10, 20, 30],
        )
        .unwrap();
    index.remove(vec![20]).unwrap();
    let (ids, dists) = index.search(&bits(&[0.0, 0.0, 0.0]), 3, None).unwrap();
    assert_eq!(ids, vec![10, 30]);
    let d = dists_f32(&dists);
    assert!((d[0] - 0.0).abs() < 1e-6);
    assert!((d[1] - 3.464).abs() < 1e-3);
}

#[test]
fn minkowski_order_one_is_manhattan() {
    // dim 2, order 1; entry [0,0]; query [3,4] is at distance 7
    let mut index = AnnIndex::new_minkowski(2, 1.0f32.to_bits()).unwrap();
    index.add(rows(&[&[0.0, 0.0]]), vec![0]).unwrap();
    let (ids, dists) = index.search(&bits(&[3.0, 4.0]), 1, None).unwrap();
    assert_eq!(ids, vec![0]);
    let d = dists_f32(&dists);
    assert!((d[0] - 7.0).abs() < 1e-6);
}

#[test]
fn duplicate_batch_rejected_whole() {
    let mut index = AnnIndex::new(2, Distance::Euclidean).unwrap();
    index.add(rows(&[&[0.0, 0.0]]), vec![7]).unwrap();
    let len_before = index.len();
    let cap_before = index.capacity();
    let ver_before = index.version();
    // one id collides with a live one: nothing of the batch lands
    let r = index.add(rows(&[&[1.0, 1.0], &[2.0, 2.0]]), vec![8, 7]);
    assert!(r.is_err());
    assert_eq!(index.len(), len_before);
    assert_eq!(index.capacity(), cap_before);
    assert_eq!(index.version(), ver_before);
    // a duplicate within the batch is also refused whole
    let r = index.add(rows(&[&[1.0, 1.0], &[2.0, 2.0]]), vec![9, 9]);
    assert!(r.is_err());
    assert_eq!(index.len(), len_before);
}

#[test]
fn version_counts_mutations_only() {
    let mut index = AnnIndex::new(2, Distance::Euclidean).unwrap();
    assert_eq!(index.version(), 0);
    index.add(rows(&[&[0.0, 0.0], &[1.0, 0.0]]), vec![1, 2]).unwrap();
    assert_eq!(index.version(), 1);
    index.remove(vec![2]).unwrap();
    assert_eq!(index.version(), 2);
    index.update(1, bits(&[0.5, 0.5])).unwrap();
    assert_eq!(index.version(), 3);
    index.compact().unwrap();
    assert_eq!(index.version(), 4);
    // reads do not move the version
    let _ = index.search(&bits(&[0.0, 0.0]), 1, None).unwrap();
    let _ = index.len();
    let _ = index.capacity();
    assert_eq!(index.version(), 4);
}

#[test]
fn removed_id_never_returned_until_readded() {
    let mut index = AnnIndex::new(1, Distance::Euclidean).unwrap();
    index.add(rows(&[&[0.0], &[1.0], &[2.0]]), vec![1, 2, 3]).unwrap();
    index.remove(vec![2]).unwrap();
    let (ids, _) = index.search(&bits(&[1.0]), 3, None).unwrap();
    assert!(!ids.contains(&2));
    index.add(rows(&[&[1.0]]), vec![2]).unwrap();
    let (ids, _) = index.search(&bits(&[1.0]), 3, None).unwrap();
    assert!(ids.contains(&2));
}

#[test]
fn search_results_sorted_and_bounded() {
    let mut index = AnnIndex::new(1, Distance::Euclidean).unwrap();
    index
        .add(
            rows(&[&[5.0], &[1.0], &[3.0], &[2.0], &[4.0]]),
            vec![50, 10, 30, 20, 40],
        )
        .unwrap();
    let (ids, dists) = index.search(&bits(&[0.0]), 3, None).unwrap();
    assert_eq!(ids.len(), 3);
    let d = dists_f32(&dists);
    assert!(d[0] <= d[1] && d[1] <= d[2]);
    assert_eq!(ids, vec![10, 20, 30]);
    // k larger than the live count returns everything, still sorted
    let (ids, _) = index.search(&bits(&[0.0]), 10, None).unwrap();
    assert_eq!(ids.len(), 5);
}

#[test]
fn filters_restrict_search() {
    let mut index = AnnIndex::new(1, Distance::Euclidean).unwrap();
    index.add(rows(&[&[1.0], &[2.0], &[3.0]]), vec![1, 2, 3]).unwrap();
    let f = Filter::id_range(2, 3);
    let (ids, _) = index.search(&bits(&[0.0]), 3, Some(&f)).unwrap();
    assert_eq!(ids, vec![2, 3]);
    let f = Filter::id_set(vec![3]);
    let (ids, _) = index.search(&bits(&[0.0]), 3, Some(&f)).unwrap();
    assert_eq!(ids, vec![3]);
    let f = Filter::not(Filter::id_set(vec![3]));
    let (ids, _) = index.search(&bits(&[0.0]), 3, Some(&f)).unwrap();
    assert_eq!(ids, vec![1, 2]);
}

#[test]
fn filter_laws_on_values() {
    // the empty conjunction accepts, the empty disjunction rejects,
    // double negation changes nothing
    let and_empty = Filter::and(vec![]);
    assert!(and_empty.accepts(42, 0));
    let or_empty = Filter::or(vec![]);
    assert!(!or_empty.accepts(42, 0));
    let f = Filter::id_range(0, 10);
    let nn = Filter::not(Filter::not(Filter::id_range(0, 10)));
    for id in [-1i64, 0, 5, 10, 11] {
        assert_eq!(f.accepts(id, 0), nn.accepts(id, 0));
    }
    // boolean filters go by slot position and reject out of range
    let b = Filter::boolean(vec![true, false, true]);
    assert!(b.accepts(0, 0));
    assert!(!b.accepts(0, 1));
    assert!(b.accepts(0, 2));
    assert!(!b.accepts(0, 3));
}

#[test]
fn empty_index_search_fails() {
    let index = AnnIndex::new(2, Distance::Euclidean).unwrap();
    assert!(index.search(&bits(&[0.0, 0.0]), 1, None).is_err());
}

#[test]
fn batch_search_shapes() {
    let mut index = AnnIndex::new(2, Distance::Euclidean).unwrap();
    index.add(rows(&[&[0.0, 0.0], &[1.0, 0.0]]), vec![1, 2]).unwrap();
    let queries = rows(&[&[0.0, 0.0], &[1.0, 0.0], &[0.5, 0.0]]);
    let (ids, dists) = index.search_batch(&queries, 2, None).unwrap();
    assert_eq!(ids.len(), 3);
    assert_eq!(dists.len(), 3);
    for row in &ids {
        assert_eq!(row.len(), 2);
    }
    assert_eq!(ids[0][0], 1);
    assert_eq!(ids[1][0], 2);
}

#[test]
fn custom_metric_through_registry() {
    let mut index = AnnIndex::new_with_metric(1, "chebyshev").unwrap();
    index.add(rows(&[&[1.0], &[5.0]]), vec![1, 2]).unwrap();
    let (ids, _) = index.search(&bits(&[0.0]), 1, None).unwrap();
    assert_eq!(ids, vec![1]);
    // an unresolved name fails the search with a typed error
    let mut index = AnnIndex::new_with_metric(1, "no_such_metric").unwrap();
    index.add(rows(&[&[1.0]]), vec![1]).unwrap();
    assert!(index.search(&bits(&[0.0]), 1, None).is_err());
}
