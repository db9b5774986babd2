use vss_store::collection::{Point, ScoredPoint};
use vss_store::store::{
    add_point, create_collections, delete_collection, delete_points, get_collections_info,
    get_point, get_points, search_points, Store, StoreError,
};

fn bits(v: &[f32]) -> Vec<u32> {
    v.iter().map(|x| x.to_bits()).collect()
}

fn euclidean(a: &Vec<u32>, b: &Vec<u32>) -> u32 {
    let mut sum: f32 = 0.0;
    for (x, y) in a.iter().zip(b.iter()) {
        let d = f32::from_bits(*x) - f32::from_bits(*y);
        sum += d * d;
    }
    sum.sqrt().to_bits()
}

fn city(name: &str) -> Option<String> {
    Some(format!("{{\"city\":\"{}\"}}", name))
}

fn fixture() -> Vec<Point> {
    let rows: [(u64, [f32; 4], &str); 6] = [
        (1, [0.05, 0.61, 0.76, 0.74], "Berlin"),
        (2, [0.19, 0.81, 0.75, 0.11], "London"),
        (3, [0.36, 0.55, 0.47, 0.94], "Moscow"),
        (4, [0.18, 0.01, 0.85, 0.80], "New York"),
        (5, [0.24, 0.18, 0.22, 0.44], "Beijing"),
        (6, [0.35, 0.08, 0.11, 0.44], "Mumbai"),
    ];
    rows.iter()
        .map(|(id, v, c)| Point { id: *id, vector: bits(v), payload: city(c) })
        .collect()
}

fn store_with_fixture() -> (Store, Vec<Point>) {
    let mut store = Store::new();
    create_collections(&mut store, "test_vss", 4).unwrap();
    let points = fixture();
    let r = add_point(&mut store, "test_vss", &points).unwrap();
    assert_eq!(r, vec![1, 2, 3, 4, 5, 6]);
    (store, points)
}

fn ids_of(r: &[ScoredPoint]) -> Vec<u64> {
    r.iter().map(|p| p.id).collect()
}

#[test]
fn test_collections() {
    let mut store = Store::new();
    create_collections(&mut store, "test_vss", 4).unwrap();
    let r = get_collections_info(&store, "test_vss").unwrap();
    assert_eq!(r.points_count, 0);
}

#[test]
fn test_points_base() {
    let (store, points) = store_with_fixture();

    let mut r = get_points(&store, "test_vss", vec![1, 2, 3]).unwrap();
    assert_eq!(r.len(), 3);
    r.sort_by(|a, b| a.id.cmp(&b.id));
    assert_eq!(r[0].payload, points[0].payload);
    assert_eq!(r[1].payload, points[1].payload);
    assert_eq!(r[2].payload, points[2].payload);

    let r = get_point(&store, "test_vss", 4).unwrap();
    assert_eq!(r.payload, points[3].payload);
}

#[test]
fn test_points_search() {
    let (store, _points) = store_with_fixture();
    let q = bits(&[0.2, 0.1, 0.9, 0.7]);
    let r = search_points(&store, "test_vss", &q, 2, &euclidean).unwrap();
    assert_eq!(r.len(), 2);
    assert_eq!(r[0].id, 4);
    assert_eq!(r[1].id, 1);
}

#[test]
fn test_points_delete() {
    let (mut store, _points) = store_with_fixture();
    delete_points(&mut store, "test_vss", vec![1, 2, 3, 4]).unwrap();
    let r = get_points(&store, "test_vss", vec![1, 2, 3, 4]).unwrap();
    assert_eq!(r.len(), 0);
}

#[test]
fn delete_then_get_one_is_not_found() {
    let (mut store, _points) = store_with_fixture();
    delete_points(&mut store, "test_vss", vec![1, 2, 3, 4]).unwrap();
    assert_eq!(get_point(&store, "test_vss", 4).err(), Some(StoreError::NotFound));
    assert_eq!(get_collections_info(&store, "test_vss").unwrap().points_count, 2);
    let left = get_points(&store, "test_vss", vec![4, 5, 6, 7]).unwrap();
    let mut ids: Vec<u64> = left.iter().map(|p| p.id).collect();
    ids.sort();
    assert_eq!(ids, vec![5, 6]);
}

#[test]
fn delete_ignores_unknown_ids() {
    let (mut store, _points) = store_with_fixture();
    delete_points(&mut store, "test_vss", vec![42, 43]).unwrap();
    assert_eq!(get_collections_info(&store, "test_vss").unwrap().points_count, 6);
}

#[test]
fn create_then_info_is_zero() {
    let mut store = Store::new();
    create_collections(&mut store, "a", 1).unwrap();
    create_collections(&mut store, "b", 128).unwrap();
    assert_eq!(get_collections_info(&store, "a").unwrap().points_count, 0);
    assert_eq!(get_collections_info(&store, "b").unwrap().points_count, 0);
}

#[test]
fn create_twice_is_conflict() {
    let mut store = Store::new();
    create_collections(&mut store, "c", 4).unwrap();
    assert_eq!(create_collections(&mut store, "c", 8), Err(StoreError::AlreadyExists));
}

#[test]
fn upsert_then_get_round_trips() {
    let (store, points) = store_with_fixture();
    for p in &points {
        let got = get_point(&store, "test_vss", p.id).unwrap();
        assert_eq!(got.id, p.id);
        assert_eq!(got.vector, p.vector);
        assert_eq!(got.payload, p.payload);
    }
}

#[test]
fn absent_payload_is_kept_absent() {
    let mut store = Store::new();
    create_collections(&mut store, "c", 2).unwrap();
    let p = Point { id: 9, vector: bits(&[1.0, 2.0]), payload: None };
    let q = Point { id: 10, vector: bits(&[1.0, 2.0]), payload: Some("{}".to_string()) };
    add_point(&mut store, "c", &[p, q]).unwrap();
    assert_eq!(get_point(&store, "c", 9).unwrap().payload, None);
    assert_eq!(get_point(&store, "c", 10).unwrap().payload, Some("{}".to_string()));
}

#[test]
fn reupsert_replaces_vector_and_payload() {
    let (mut store, _points) = store_with_fixture();
    let q = Point { id: 2, vector: bits(&[1.0, 1.0, 1.0, 1.0]), payload: city("Paris") };
    let r = add_point(&mut store, "test_vss", &[q]).unwrap();
    assert_eq!(r, vec![2]);
    let got = get_point(&store, "test_vss", 2).unwrap();
    assert_eq!(got.vector, bits(&[1.0, 1.0, 1.0, 1.0]));
    assert_eq!(got.payload, city("Paris"));
    assert_eq!(get_collections_info(&store, "test_vss").unwrap().points_count, 6);
}

#[test]
fn repeated_id_in_one_batch_last_wins() {
    let mut store = Store::new();
    create_collections(&mut store, "c", 1).unwrap();
    let a = Point { id: 7, vector: bits(&[1.0]), payload: city("A") };
    let b = Point { id: 7, vector: bits(&[2.0]), payload: city("B") };
    assert_eq!(add_point(&mut store, "c", &[a, b]).unwrap(), vec![7, 7]);
    let got = get_point(&store, "c", 7).unwrap();
    assert_eq!(got.vector, bits(&[2.0]));
    assert_eq!(got.payload, city("B"));
    assert_eq!(get_collections_info(&store, "c").unwrap().points_count, 1);
}

#[test]
fn dimension_mismatch_on_insert_writes_nothing() {
    let mut store = Store::new();
    create_collections(&mut store, "c", 3).unwrap();
    let good = Point { id: 1, vector: bits(&[1.0, 2.0, 3.0]), payload: None };
    let bad = Point { id: 2, vector: bits(&[1.0, 2.0]), payload: None };
    let worse = Point { id: 3, vector: bits(&[1.0, 2.0, 3.0, 4.0]), payload: None };
    assert_eq!(
        add_point(&mut store, "c", &[good, bad, worse]),
        Err(StoreError::DimensionMismatch(Some(2)))
    );
    assert_eq!(get_collections_info(&store, "c").unwrap().points_count, 0);
    assert_eq!(get_point(&store, "c", 1).err(), Some(StoreError::NotFound));
}

#[test]
fn dimension_mismatch_on_search() {
    let (store, _points) = store_with_fixture();
    let q = bits(&[0.2, 0.1, 0.9]);
    assert_eq!(
        search_points(&store, "test_vss", &q, 2, &euclidean).err(),
        Some(StoreError::DimensionMismatch(None))
    );
}

#[test]
fn search_orders_all_points_by_distance() {
    let (store, _points) = store_with_fixture();
    let q = bits(&[0.2, 0.1, 0.9, 0.7]);
    let r = search_points(&store, "test_vss", &q, 100, &euclidean).unwrap();
    assert_eq!(ids_of(&r), vec![4, 1, 3, 5, 6, 2]);
    for w in r.windows(2) {
        assert!(f32::from_bits(w[0].score) <= f32::from_bits(w[1].score));
    }
    assert_eq!(r[0].payload, city("New York"));
    assert_eq!(r[1].vector, bits(&[0.05, 0.61, 0.76, 0.74]));
}

#[test]
fn search_score_is_euclidean_distance() {
    let mut store = Store::new();
    create_collections(&mut store, "c", 2).unwrap();
    add_point(&mut store, "c", &[Point { id: 1, vector: bits(&[3.0, 4.0]), payload: None }])
        .unwrap();
    let r = search_points(&store, "c", &bits(&[0.0, 0.0]), 1, &euclidean).unwrap();
    assert_eq!(f32::from_bits(r[0].score), 5.0);
}

#[test]
fn search_with_zero_limit_is_empty() {
    let (store, _points) = store_with_fixture();
    let q = bits(&[0.2, 0.1, 0.9, 0.7]);
    assert_eq!(search_points(&store, "test_vss", &q, 0, &euclidean).unwrap().len(), 0);
}

#[test]
fn search_on_empty_collection_is_empty() {
    let mut store = Store::new();
    create_collections(&mut store, "c", 2).unwrap();
    assert_eq!(search_points(&store, "c", &bits(&[0.0, 0.0]), 3, &euclidean).unwrap().len(), 0);
}

#[test]
fn search_ties_break_by_ascending_id() {
    let mut store = Store::new();
    create_collections(&mut store, "c", 1).unwrap();
    let pts = vec![
        Point { id: 30, vector: bits(&[1.0]), payload: None },
        Point { id: 10, vector: bits(&[-1.0]), payload: None },
        Point { id: 20, vector: bits(&[1.0]), payload: None },
    ];
    add_point(&mut store, "c", &pts).unwrap();
    let r = search_points(&store, "c", &bits(&[0.0]), 2, &euclidean).unwrap();
    assert_eq!(ids_of(&r), vec![10, 20]);
}

#[test]
fn missing_collection_is_not_found() {
    let mut store = Store::new();
    assert_eq!(get_collections_info(&store, "x").err(), Some(StoreError::NotFound));
    assert_eq!(add_point(&mut store, "x", &[]), Err(StoreError::NotFound));
    assert_eq!(get_points(&store, "x", vec![1]).err(), Some(StoreError::NotFound));
    assert_eq!(get_point(&store, "x", 1).err(), Some(StoreError::NotFound));
    assert_eq!(
        search_points(&store, "x", &bits(&[0.0]), 1, &euclidean).err(),
        Some(StoreError::NotFound)
    );
    assert_eq!(delete_points(&mut store, "x", vec![1]), Err(StoreError::NotFound));
    assert_eq!(delete_collection(&mut store, "x"), Err(StoreError::NotFound));
}

#[test]
fn deleted_collection_is_not_found() {
    let (mut store, points) = store_with_fixture();
    delete_collection(&mut store, "test_vss").unwrap();
    assert_eq!(get_collections_info(&store, "test_vss").err(), Some(StoreError::NotFound));
    assert_eq!(add_point(&mut store, "test_vss", &points), Err(StoreError::NotFound));
    assert_eq!(get_points(&store, "test_vss", vec![1]).err(), Some(StoreError::NotFound));
    assert_eq!(get_point(&store, "test_vss", 1).err(), Some(StoreError::NotFound));
    assert_eq!(delete_points(&mut store, "test_vss", vec![1]), Err(StoreError::NotFound));
    let q = bits(&[0.2, 0.1, 0.9, 0.7]);
    assert_eq!(
        search_points(&store, "test_vss", &q, 2, &euclidean).err(),
        Some(StoreError::NotFound)
    );
    create_collections(&mut store, "test_vss", 4).unwrap();
    assert_eq!(get_collections_info(&store, "test_vss").unwrap().points_count, 0);
}

#[test]
fn collections_are_independent() {
    let (mut store, _points) = store_with_fixture();
    create_collections(&mut store, "other", 4).unwrap();
    assert_eq!(get_point(&store, "other", 1).err(), Some(StoreError::NotFound));
    delete_collection(&mut store, "other").unwrap();
    assert_eq!(get_collections_info(&store, "test_vss").unwrap().points_count, 6);
}

#[test]
fn zero_dimension_is_rejected_for_new_names() {
    let mut store = Store::new();
    assert_eq!(create_collections(&mut store, "z", 0), Err(StoreError::InvalidDimension));
    assert_eq!(get_collections_info(&store, "z").err(), Some(StoreError::NotFound));
    create_collections(&mut store, "z", 1).unwrap();
    assert_eq!(create_collections(&mut store, "z", 0), Err(StoreError::AlreadyExists));
    assert_eq!(get_collections_info(&store, "z").unwrap().points_count, 0);
}
