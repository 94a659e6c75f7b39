use gvector::distance::{distance_bits, distance_key, is_nearer, Metric};
use gvector::posting::{posting_contains, posting_insert, posting_remove};
use gvector::rank::{keep_smallest, merge_smallest, sort};
use gvector::types::{SearchResult, VectorId, DEFAULT_SEED};

#[test]
fn keys_order_as_distances_do() {
    let ds = [
        f32::NEG_INFINITY,
        -2.5,
        -1e-30,
        -0.0,
        0.0,
        1e-30,
        1.0,
        3.5,
        f32::INFINITY,
        f32::NAN,
    ];
    for a in ds {
        assert_eq!(distance_bits(distance_key(a.to_bits())), a.to_bits());
        for b in ds {
            assert_eq!(
                distance_key(a.to_bits()) < distance_key(b.to_bits()),
                a.total_cmp(&b).is_lt(),
                "{a} {b}"
            );
        }
    }
}

#[test]
fn only_cosine_normalizes() {
    assert!(Metric::Cosine.requires_normalization());
    assert!(!Metric::L2.requires_normalization());
    assert!(!Metric::Dot.requires_normalization());
    for m in [Metric::L2, Metric::Dot, Metric::Cosine] {
        assert_eq!(Metric::from_code(m.to_code()), Some(m));
    }
    assert_eq!(Metric::from_code(3), None);
    assert_eq!(DEFAULT_SEED, 42);
}

fn r(id: u64, distance: u32) -> SearchResult {
    SearchResult::new(VectorId(id), distance)
}

#[test]
fn selections_keep_the_smallest() {
    let all = vec![r(5, 9), r(1, 3), r(2, 3), r(9, 1), r(0, 9)];
    let sorted = sort(&all);
    assert_eq!(sorted, vec![r(9, 1), r(1, 3), r(2, 3), r(0, 9), r(5, 9)]);
    let mut kept = Vec::new();
    for x in &all {
        keep_smallest(&mut kept, *x, 3);
    }
    assert_eq!(kept, sorted[..3]);
    let parts = merge_smallest(sort(&vec![r(5, 9), r(1, 3)]), &vec![r(9, 1), r(2, 3)], 3);
    assert_eq!(parts, vec![r(9, 1), r(1, 3), r(2, 3)]);
    let mut none = Vec::new();
    keep_smallest(&mut none, r(1, 1), 0);
    assert!(none.is_empty());
}

#[test]
fn posting_lists_stay_sorted() {
    let mut list = Vec::new();
    for i in [5u64, 1, 3] {
        assert!(posting_insert(&mut list, VectorId(i)));
    }
    assert!(!posting_insert(&mut list, VectorId(5)));
    assert!(posting_insert(&mut list, VectorId(2)));
    assert_eq!(
        list,
        vec![VectorId(1), VectorId(2), VectorId(3), VectorId(5)]
    );
    posting_remove(&mut list, VectorId(2));
    posting_remove(&mut list, VectorId(4));
    assert_eq!(list, vec![VectorId(1), VectorId(3), VectorId(5)]);
    assert!(posting_contains(&list, VectorId(3)));
    assert!(!posting_contains(&list, VectorId(2)));
}

#[test]
fn nearer_is_smaller_as_numbers_are() {
    let ds = [
        f32::NEG_INFINITY,
        -2.5,
        -1e-30,
        -0.0,
        0.0,
        1e-30,
        3.5,
        f32::INFINITY,
        f32::NAN,
        -f32::NAN,
    ];
    for a in ds {
        for b in ds {
            let (x, y) = (distance_key(a.to_bits()), distance_key(b.to_bits()));
            assert_eq!(is_nearer(x, y), a < b, "{a} {b}");
        }
    }
}
