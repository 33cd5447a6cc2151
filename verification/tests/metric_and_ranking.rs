use qdrant::metric::{
    check_vector, distance_squared, dot_product, is_zero_vector, score, Distance, Score, MAX_DIM,
};
use qdrant::ranking::{comes_before, merge, offer, ScoredPoint};

fn sp(id: u64, num: i128, den: i128) -> ScoredPoint {
    ScoredPoint { id, score: Score { num, den } }
}

fn ids(list: &Vec<ScoredPoint>) -> Vec<u64> {
    let mut out = Vec::new();
    for p in list.iter() {
        out.push(p.id);
    }
    out
}

#[test]
fn dot_product_of_small_vectors() {
    assert_eq!(dot_product(&vec![1, 2, 3], &vec![4, 5, 6]), 32);
    assert_eq!(dot_product(&vec![-128, 127], &vec![-128, -128]), 16384 - 16256);
    assert_eq!(dot_product(&vec![], &vec![]), 0);
}

#[test]
fn dot_product_at_the_largest_dimension() {
    let a = vec![-128i8; MAX_DIM];
    assert_eq!(dot_product(&a, &a), 16384 * 65536);
}

#[test]
fn squared_distance_of_small_vectors() {
    assert_eq!(distance_squared(&vec![1, 2, 3], &vec![4, 6, 3]), 25);
    assert_eq!(distance_squared(&vec![-128], &vec![127]), 255 * 255);
    assert_eq!(distance_squared(&vec![5, 5], &vec![5, 5]), 0);
}

#[test]
fn zero_vector_is_recognised() {
    assert!(is_zero_vector(&vec![0, 0, 0]));
    assert!(is_zero_vector(&vec![]));
    assert!(!is_zero_vector(&vec![0, 0, -1]));
}

#[test]
fn vectors_are_checked_against_shape_and_metric() {
    assert!(check_vector(Distance::Dot, 3, &vec![0, 0, 0]));
    assert!(check_vector(Distance::Euclid, 3, &vec![0, 0, 0]));
    assert!(!check_vector(Distance::Cosine, 3, &vec![0, 0, 0]));
    assert!(check_vector(Distance::Cosine, 3, &vec![0, 1, 0]));
    assert!(!check_vector(Distance::Dot, 3, &vec![1, 2]));
    assert!(!check_vector(Distance::Cosine, 3, &vec![1, 2, 3, 4]));
}

#[test]
fn dot_score_is_the_dot_product() {
    assert_eq!(score(Distance::Dot, &vec![1, 2, 3], &vec![4, 5, 6]), Score { num: 32, den: 1 });
    assert_eq!(score(Distance::Dot, &vec![1, 0], &vec![-7, 9]), Score { num: -7, den: 1 });
}

#[test]
fn euclid_score_is_the_negated_squared_distance() {
    assert_eq!(score(Distance::Euclid, &vec![1, 2, 3], &vec![4, 6, 3]), Score { num: -25, den: 1 });
    assert_eq!(score(Distance::Euclid, &vec![9, 9], &vec![9, 9]), Score { num: 0, den: 1 });
}

#[test]
fn cosine_score_is_the_signed_squared_cosine() {
    assert_eq!(score(Distance::Cosine, &vec![1, 0], &vec![1, 1]), Score { num: 1, den: 2 });
    assert_eq!(score(Distance::Cosine, &vec![-1, 0], &vec![1, 1]), Score { num: -1, den: 2 });
    assert_eq!(score(Distance::Cosine, &vec![3, 4], &vec![3, 4]), Score { num: 625, den: 625 });
    assert_eq!(score(Distance::Cosine, &vec![0, 0], &vec![3, 4]), Score { num: 0, den: 1 });
    assert_eq!(score(Distance::Cosine, &vec![0, 5], &vec![5, 0]), Score { num: 0, den: 625 });
}

#[test]
fn cosine_score_of_parallel_vectors_is_one() {
    let s = score(Distance::Cosine, &vec![2, 4, 6], &vec![1, 2, 3]);
    assert_eq!(s.num, s.den);
    assert_eq!(s.num as f64 / s.den as f64, 1.0);
}

#[test]
fn higher_score_comes_first() {
    assert!(comes_before(&sp(9, 3, 4), &sp(1, 2, 3)));
    assert!(!comes_before(&sp(1, 2, 3), &sp(9, 3, 4)));
    assert!(comes_before(&sp(9, -1, 3), &sp(1, -1, 2)));
}

#[test]
fn equal_scores_are_ordered_by_id() {
    assert!(comes_before(&sp(1, 1, 2), &sp(2, 2, 4)));
    assert!(!comes_before(&sp(2, 2, 4), &sp(1, 1, 2)));
    assert!(!comes_before(&sp(1, 1, 2), &sp(1, 1, 2)));
}

#[test]
fn offer_keeps_the_best_in_order() {
    let mut buf: Vec<ScoredPoint> = Vec::new();
    assert_eq!(offer(&mut buf, 3, sp(5, 1, 1)), Some(0));
    assert_eq!(offer(&mut buf, 3, sp(6, 3, 1)), Some(0));
    assert_eq!(offer(&mut buf, 3, sp(7, 2, 1)), Some(1));
    assert_eq!(ids(&buf), vec![6, 7, 5]);
    assert_eq!(offer(&mut buf, 3, sp(8, 0, 1)), None);
    assert_eq!(ids(&buf), vec![6, 7, 5]);
    assert_eq!(offer(&mut buf, 3, sp(4, 1, 1)), Some(2));
    assert_eq!(ids(&buf), vec![6, 7, 4]);
    assert_eq!(offer(&mut buf, 3, sp(9, 5, 2)), Some(1));
    assert_eq!(ids(&buf), vec![6, 9, 7]);
}

#[test]
fn offer_to_a_buffer_without_room_changes_nothing() {
    let mut buf: Vec<ScoredPoint> = Vec::new();
    assert_eq!(offer(&mut buf, 0, sp(1, 1, 1)), None);
    assert!(buf.is_empty());
}

#[test]
fn merge_gives_the_top_of_both() {
    let mut global = vec![sp(1, 9, 1), sp(2, 5, 1), sp(3, 1, 1)];
    let local = vec![sp(10, 7, 1), sp(11, 5, 1), sp(12, 0, 1)];
    merge(&mut global, &local, 4);
    assert_eq!(ids(&global), vec![1, 10, 2, 11]);
}

#[test]
fn merge_into_an_empty_ranking_copies() {
    let mut global: Vec<ScoredPoint> = Vec::new();
    let local = vec![sp(10, 7, 1), sp(11, 5, 1)];
    merge(&mut global, &local, 5);
    assert_eq!(global, local);
}
