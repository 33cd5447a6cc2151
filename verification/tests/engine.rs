use qdrant::collection::{Collection, CollectionConfig, Optimization, Point};
use qdrant::error::{EngineError, ErrorKind};
use qdrant::filter::{Condition, Filter};
use qdrant::metric::{score, Distance, Score, MAX_DIM};
use qdrant::model::UpdateStatus;
use qdrant::payload::{Field, Payload, Value};
use qdrant::ranking::ScoredPoint;
use qdrant::recommend::{mean_of, references, synthesize, Example};
use qdrant::scroll::Page;
use qdrant::search::SearchParams;
use qdrant::segment::WalEntry;
use qdrant::service::{status_for, version_info, PayloadFault};
use qdrant::toc::{Operation, Outcome, TableOfContent};

const EXACT: SearchParams = SearchParams { exact: true, budget: 0 };

fn config(dim: usize, metric: Distance, segments: usize) -> CollectionConfig {
    CollectionConfig {
        dim,
        metric,
        segments,
        max_degree: 4,
        build_budget: 16,
        exact_threshold: 0,
        compact_percent: 30,
        small_segment: 0,
    }
}

fn tagged(n: i64) -> Payload {
    Payload { fields: vec![Field { key: "n".to_string(), value: Value::Integer(n) }] }
}

fn point(id: u64, vector: Vec<i8>) -> Point {
    Point { id, vector, payload: tagged(id as i64) }
}

fn collection(dim: usize, metric: Distance, segments: usize) -> Collection {
    match Collection::new(config(dim, metric, segments)) {
        Ok(c) => c,
        Err(e) => panic!("no collection: {:?}", e),
    }
}

fn line(metric: Distance, segments: usize, count: u64) -> Collection {
    let mut c = collection(2, metric, segments);
    let points: Vec<Point> = (1..=count).map(|id| point(id, vec![id as i8, 1])).collect();
    assert_eq!(c.upsert_points(1, &points), Ok(vec![UpdateStatus::Applied; count as usize]));
    c
}

fn copy_log(log: &Vec<WalEntry>) -> Vec<WalEntry> {
    log.iter()
        .map(|e| match e {
            WalEntry::Upsert { version, id, vector, payload } => WalEntry::Upsert {
                version: *version,
                id: *id,
                vector: vector.clone(),
                payload: payload.clone(),
            },
            WalEntry::Delete { version, id } => WalEntry::Delete { version: *version, id: *id },
        })
        .collect()
}

fn ids(list: &Vec<ScoredPoint>) -> Vec<u64> {
    list.iter().map(|p| p.id).collect()
}

fn page_ids(page: &Page) -> Vec<u64> {
    page.points.iter().map(|r| r.id).collect()
}

fn at_least(n: i64) -> Filter {
    Filter {
        must: vec![Condition::Range { key: "n".to_string(), lower: Some(n), upper: None }],
        should: vec![],
        must_not: vec![],
    }
}

fn malformed() -> Filter {
    Filter {
        must: vec![Condition::Range { key: "n".to_string(), lower: None, upper: None }],
        should: vec![],
        must_not: vec![],
    }
}

#[test]
fn docs_collection_scenario() {
    let mut toc = TableOfContent::new();
    let name = "docs".to_string();
    assert_eq!(toc.create_collection(name.clone(), config(4, Distance::Cosine, 2)), Ok(()));
    let points = vec![
        Point { id: 1, vector: vec![1, 0, 0, 0], payload: Payload::new() },
        Point { id: 2, vector: vec![0, 1, 0, 0], payload: Payload::new() },
    ];
    match toc.dispatch(&name, Operation::Upsert { version: 1, points }) {
        Ok(Outcome::Acknowledged(acks)) => assert_eq!(acks, vec![UpdateStatus::Applied; 2]),
        other => panic!("{:?}", other),
    }
    let docs = toc.get_collection(&name).unwrap();
    for params in [EXACT, SearchParams { exact: false, budget: 10 }] {
        let found = docs.search(&vec![1, 0, 0, 0], &Filter::all(), 1, &params).unwrap();
        assert_eq!(found.len(), 1);
        assert_eq!(found[0].id, 1);
        assert_eq!(found[0].score.num as f64 / found[0].score.den as f64, 1.0);
    }
    let first = docs.scroll(&Filter::all(), None, 1).unwrap();
    assert_eq!(page_ids(&first), vec![1]);
    assert_eq!(first.points[0].vector, vec![1, 0, 0, 0]);
    assert_eq!(first.next, Some(1));
    let second = docs.scroll(&Filter::all(), Some(1), 1).unwrap();
    assert_eq!(page_ids(&second), vec![2]);
    assert_eq!(second.next, None);
}

#[test]
fn collection_shapes_are_validated() {
    assert!(Collection::new(config(1, Distance::Dot, 1)).is_ok());
    assert!(Collection::new(config(MAX_DIM, Distance::Dot, 3)).is_ok());
    assert!(matches!(Collection::new(config(0, Distance::Dot, 1)), Err(EngineError::BadRequest)));
    assert!(matches!(Collection::new(config(MAX_DIM + 1, Distance::Dot, 1)), Err(EngineError::BadRequest)));
    assert!(matches!(Collection::new(config(4, Distance::Dot, 0)), Err(EngineError::BadRequest)));
}

#[test]
fn points_go_to_the_segment_their_id_selects() {
    let c = line(Distance::Dot, 3, 10);
    assert_eq!(c.segments.len(), 3);
    for id in 1..=10u64 {
        assert_eq!(c.home_of(id), (id % 3) as usize);
        for (s, segment) in c.segments.iter().enumerate() {
            assert_eq!(segment.knows(id), s == (id % 3) as usize);
        }
    }
}

#[test]
fn upserted_points_are_retrieved_exactly() {
    let mut c = collection(3, Distance::Dot, 2);
    let payload = Payload {
        fields: vec![
            Field { key: "name".to_string(), value: Value::Text("höhle".to_string()) },
            Field { key: "sizes".to_string(), value: Value::Integers(vec![-1, 0, i64::MAX]) },
        ],
    };
    let points = vec![
        Point { id: 7, vector: vec![-128, 0, 127], payload: payload.clone() },
        Point { id: 8, vector: vec![1, 2, 3], payload: Payload::new() },
    ];
    assert_eq!(c.upsert_points(3, &points), Ok(vec![UpdateStatus::Applied; 2]));
    let r = c.get_point(7).unwrap();
    assert_eq!((r.id, r.version), (7, 3));
    assert_eq!(r.vector, vec![-128, 0, 127]);
    assert_eq!(r.payload, payload);
    let both = c.retrieve(&vec![8, 7]);
    assert_eq!(both.len(), 2);
    assert_eq!((both[0].id, both[0].vector.clone()), (8, vec![1, 2, 3]));
    assert_eq!(both[0].payload, Payload::new());
    assert_eq!(both[1], r);
}

#[test]
fn a_batch_with_a_bad_vector_changes_nothing() {
    let mut c = line(Distance::Cosine, 2, 3);
    let batch = vec![point(1, vec![9, 9]), point(20, vec![1, 1]), point(21, vec![1, 1, 1])];
    assert_eq!(c.upsert_points(2, &batch), Err(EngineError::BadVector));
    let zero = vec![point(22, vec![1, 1]), point(23, vec![0, 0])];
    assert_eq!(c.upsert_points(2, &zero), Err(EngineError::BadVector));
    assert_eq!(c.get_point(1).unwrap().vector, vec![1, 1]);
    assert_eq!(c.get_point(1).unwrap().version, 1);
    for id in 20..24u64 {
        assert_eq!(c.get_point(id), Err(EngineError::UnknownPoint));
    }
    assert_eq!(page_ids(&c.scroll(&Filter::all(), None, 100).unwrap()), vec![1, 2, 3]);
}

#[test]
fn a_batch_is_acknowledged_point_by_point() {
    let mut c = line(Distance::Dot, 2, 3);
    c.segments[1].mark_failed();
    let batch = vec![
        point(2, vec![7, 7]),
        point(2, vec![8, 8]),
        point(3, vec![7, 7]),
        point(4, vec![7, 7]),
        point(5, vec![7, 7]),
    ];
    assert_eq!(
        c.upsert_points(2, &batch),
        Ok(vec![
            UpdateStatus::Applied,
            UpdateStatus::Stale,
            UpdateStatus::Refused,
            UpdateStatus::Applied,
            UpdateStatus::Refused,
        ])
    );
    assert_eq!(c.get_point(2).unwrap().vector, vec![7, 7]);
    assert_eq!(c.get_point(3).unwrap().vector, vec![3, 1]);
    assert_eq!(c.get_point(4).unwrap().version, 2);
    assert_eq!(c.get_point(5), Err(EngineError::UnknownPoint));
    assert_eq!(c.upsert_points(1, &vec![point(2, vec![0, 0])]), Ok(vec![UpdateStatus::Stale]));
}

#[test]
fn a_single_upsert_or_delete_says_why_it_failed() {
    let mut c = line(Distance::Cosine, 2, 4);
    assert_eq!(c.upsert_point(2, &point(9, vec![0, 0])), Err(EngineError::BadVector));
    assert_eq!(c.upsert_point(2, &point(9, vec![1])), Err(EngineError::BadVector));
    assert_eq!(c.upsert_point(1, &point(2, vec![5, 5])), Err(EngineError::StaleVersion));
    assert_eq!(c.upsert_point(1, &point(2, vec![5, 5])).unwrap_err().kind(), ErrorKind::Conflict);
    assert_eq!(c.upsert_point(2, &point(2, vec![5, 5])), Ok(()));
    assert_eq!(c.get_point(2).unwrap().vector, vec![5, 5]);
    assert_eq!(c.delete_point(2, 2), Err(EngineError::StaleVersion));
    assert_eq!(c.delete_point(2, 50), Err(EngineError::UnknownPoint));
    assert_eq!(c.delete_point(3, 2), Ok(()));
    assert_eq!(c.delete_point(4, 2), Err(EngineError::UnknownPoint));
    assert_eq!(c.upsert_point(4, &point(2, vec![6, 6])), Err(EngineError::StaleVersion));
    c.segments[1].mark_failed();
    assert_eq!(c.upsert_point(9, &point(3, vec![5, 5])), Err(EngineError::SegmentFailed));
    assert_eq!(c.upsert_point(9, &point(3, vec![0, 0])), Err(EngineError::BadVector));
    assert_eq!(c.delete_point(9, 3), Err(EngineError::SegmentFailed));
    assert_eq!(c.delete_point(9, 3).unwrap_err().kind(), ErrorKind::Internal);
    assert_eq!(c.upsert_point(9, &point(4, vec![5, 5])), Ok(()));
    assert_eq!(c.get_point(3).unwrap().vector, vec![3, 1]);
}

#[test]
fn the_later_version_wins_in_either_order() {
    let older = vec![point(1, vec![1, 1])];
    let newer = vec![point(1, vec![2, 2])];
    let mut a = collection(2, Distance::Dot, 2);
    assert_eq!(a.upsert_points(10, &older), Ok(vec![UpdateStatus::Applied]));
    assert_eq!(a.upsert_points(11, &newer), Ok(vec![UpdateStatus::Applied]));
    let mut b = collection(2, Distance::Dot, 2);
    assert_eq!(b.upsert_points(11, &newer), Ok(vec![UpdateStatus::Applied]));
    assert_eq!(b.upsert_points(10, &older), Ok(vec![UpdateStatus::Stale]));
    assert_eq!(a.get_point(1), b.get_point(1));
    assert_eq!(a.get_point(1).unwrap().vector, vec![2, 2]);
    assert_eq!(a.get_point(1).unwrap().version, 11);
}

#[test]
fn upserts_of_different_ids_do_not_disturb_each_other() {
    let one = vec![point(1, vec![1, 1])];
    let two = vec![point(2, vec![2, 2])];
    let mut a = collection(2, Distance::Dot, 1);
    a.upsert_points(5, &one).unwrap();
    a.upsert_points(4, &two).unwrap();
    let mut b = collection(2, Distance::Dot, 1);
    b.upsert_points(4, &two).unwrap();
    b.upsert_points(5, &one).unwrap();
    for id in 1..=2u64 {
        assert_eq!(a.get_point(id), b.get_point(id));
        assert!(a.get_point(id).is_ok());
    }
}

#[test]
fn deleted_points_are_gone_from_every_answer() {
    let mut c = line(Distance::Euclid, 3, 9);
    assert_eq!(
        c.delete_points(2, &vec![4, 40, 5, 4]),
        vec![UpdateStatus::Applied, UpdateStatus::Missing, UpdateStatus::Applied, UpdateStatus::Stale]
    );
    assert_eq!(c.delete_points(1, &vec![6]), vec![UpdateStatus::Stale]);
    assert_eq!(c.get_point(4), Err(EngineError::UnknownPoint));
    assert_eq!(c.get_point(5).unwrap_err().kind(), ErrorKind::NotFound);
    assert!(c.get_point(6).is_ok());
    assert_eq!(c.retrieve(&vec![3, 4, 5, 6]).iter().map(|r| r.id).collect::<Vec<u64>>(), vec![3, 6]);
    for params in [EXACT, SearchParams { exact: false, budget: 100 }] {
        let found = c.search(&vec![4, 1], &Filter::all(), 9, &params).unwrap();
        assert!(!ids(&found).contains(&4) && !ids(&found).contains(&5));
        let similar = c.recommend(&vec![Example::Vector(vec![4, 1])], &vec![], &Filter::all(), 9, &params).unwrap();
        assert!(!ids(&similar).contains(&4) && !ids(&similar).contains(&5));
    }
    assert_eq!(ids(&c.search(&vec![4, 1], &Filter::all(), 9, &EXACT).unwrap()), vec![3, 2, 6, 1, 7, 8, 9]);
    assert_eq!(page_ids(&c.scroll(&Filter::all(), None, 9).unwrap()), vec![1, 2, 3, 6, 7, 8, 9]);
}

#[test]
fn delete_by_filter_sweeps_older_matching_points() {
    let mut c = line(Distance::Dot, 3, 9);
    c.upsert_points(5, &vec![point(8, vec![0, 0])]).unwrap();
    c.segments[0].mark_failed();
    assert_eq!(c.delete_by_filter(3, &malformed()), Err(EngineError::BadFilter));
    assert_eq!(c.delete_by_filter(3, &at_least(5)), Ok(()));
    assert_eq!(page_ids(&c.scroll(&Filter::all(), None, 9).unwrap()), vec![1, 2, 3, 4, 6, 8, 9]);
    assert_eq!(c.upsert_points(3, &vec![point(5, vec![1, 1])]), Ok(vec![UpdateStatus::Stale]));
}

#[test]
fn scroll_walks_all_points_once_in_ascending_order() {
    let mut c = collection(2, Distance::Dot, 3);
    let all: Vec<u64> = vec![90, 3, 17, 4, 5, u64::MAX, 0, 44, 45, 46, 12];
    let points: Vec<Point> = all.iter().map(|id| point(*id, vec![1, 1])).collect();
    c.upsert_points(1, &points).unwrap();
    c.delete_points(2, &vec![44]);
    let mut expected: Vec<u64> = all.iter().cloned().filter(|id| *id != 44).collect();
    expected.sort();
    for limit in 1..13usize {
        let mut seen: Vec<u64> = Vec::new();
        let mut cursor = None;
        let mut pages = 0;
        loop {
            let page = c.scroll(&Filter::all(), cursor, limit).unwrap();
            assert!(page.points.len() <= limit);
            seen.extend(page_ids(&page));
            pages += 1;
            match page.next {
                Some(next) => {
                    assert_eq!(page.points.len(), limit);
                    assert_eq!(Some(&next), seen.last());
                    cursor = Some(next);
                },
                None => break,
            }
        }
        assert_eq!(seen, expected);
        assert_eq!(pages, (expected.len() + limit - 1) / limit);
    }
}

#[test]
fn scroll_filters_and_starts_after_the_cursor() {
    let c = line(Distance::Dot, 2, 9);
    let page = c.scroll(&at_least(4), Some(5), 2).unwrap();
    assert_eq!(page_ids(&page), vec![6, 7]);
    assert_eq!(page.next, Some(7));
    let page = c.scroll(&at_least(4), Some(2), 10).unwrap();
    assert_eq!(page_ids(&page), vec![4, 5, 6, 7, 8, 9]);
    assert_eq!(page.next, None);
    let page = c.scroll(&at_least(4), Some(9), 3).unwrap();
    assert!(page.points.is_empty());
    assert_eq!(page.next, None);
    let page = c.scroll(&at_least(8), None, 2).unwrap();
    assert_eq!(page_ids(&page), vec![8, 9]);
    assert_eq!(page.next, None);
    let empty = collection(2, Distance::Dot, 2);
    assert_eq!(empty.scroll(&Filter::all(), None, 5), Ok(Page { points: vec![], next: None }));
}

#[test]
fn scroll_rejects_empty_pages_and_malformed_filters() {
    let c = line(Distance::Dot, 2, 3);
    assert_eq!(c.scroll(&Filter::all(), None, 0), Err(EngineError::BadRequest));
    assert_eq!(c.scroll(&malformed(), None, 0), Err(EngineError::BadRequest));
    assert_eq!(c.scroll(&malformed(), None, 1), Err(EngineError::BadFilter));
}

#[test]
fn search_merges_segments_into_one_ranking() {
    let c = line(Distance::Dot, 3, 9);
    let found = c.search(&vec![1, 0], &Filter::all(), 4, &EXACT).unwrap();
    assert_eq!(
        found,
        vec![
            ScoredPoint { id: 9, score: Score { num: 9, den: 1 } },
            ScoredPoint { id: 8, score: Score { num: 8, den: 1 } },
            ScoredPoint { id: 7, score: Score { num: 7, den: 1 } },
            ScoredPoint { id: 6, score: Score { num: 6, den: 1 } },
        ]
    );
    assert_eq!(ids(&c.search(&vec![0, 1], &Filter::all(), 4, &EXACT).unwrap()), vec![1, 2, 3, 4]);
    assert_eq!(ids(&c.search(&vec![-1, 0], &at_least(3), 2, &EXACT).unwrap()), vec![3, 4]);
    assert_eq!(c.search(&vec![1, 0], &Filter::all(), 0, &EXACT), Ok(vec![]));
    assert_eq!(c.search(&vec![1, 0], &Filter::all(), 100, &EXACT).unwrap().len(), 9);
}

#[test]
fn search_rejects_bad_queries_and_filters() {
    let c = line(Distance::Cosine, 2, 3);
    assert_eq!(c.search(&vec![1, 0, 0], &Filter::all(), 1, &EXACT), Err(EngineError::BadVector));
    assert_eq!(c.search(&vec![0, 0], &Filter::all(), 1, &EXACT), Err(EngineError::BadVector));
    assert_eq!(c.search(&vec![0, 0], &malformed(), 1, &EXACT), Err(EngineError::BadVector));
    assert_eq!(c.search(&vec![1, 0], &malformed(), 1, &EXACT), Err(EngineError::BadFilter));
    assert_eq!(c.search(&vec![1, 0], &malformed(), 1, &EXACT).unwrap_err().kind(), ErrorKind::InvalidInput);
}

#[test]
fn a_stored_point_is_its_own_nearest_neighbour() {
    for metric in [Distance::Cosine, Distance::Euclid] {
        let mut c = collection(3, metric, 3);
        let mut points = Vec::new();
        let mut id: u64 = 100;
        for x in -2..3i8 {
            for y in -2..3i8 {
                points.push(point(id, vec![x * 7, y * 5, 3]));
                id += 1;
            }
        }
        c.upsert_points(1, &points).unwrap();
        for p in points.iter() {
            let found = c.search(&p.vector, &Filter::all(), 1, &EXACT).unwrap();
            assert_eq!(found.len(), 1);
            assert_eq!(found[0].id, p.id);
            assert_eq!(found[0].score, score(metric, &p.vector, &p.vector));
            match metric {
                Distance::Euclid => assert_eq!(found[0].score, Score { num: 0, den: 1 }),
                _ => assert_eq!(found[0].score.num, found[0].score.den),
            }
        }
    }
}

#[test]
fn under_the_dot_product_a_longer_vector_may_come_first() {
    let mut c = collection(1, Distance::Dot, 1);
    c.upsert_points(1, &vec![point(1, vec![1]), point(2, vec![2])]).unwrap();
    assert_eq!(ids(&c.search(&vec![1], &Filter::all(), 1, &EXACT).unwrap()), vec![2]);
}

#[test]
fn equal_scores_rank_by_ascending_id() {
    let mut c = collection(2, Distance::Cosine, 3);
    c.upsert_points(1, &vec![point(9, vec![2, 2]), point(4, vec![1, 1]), point(6, vec![3, 3]), point(5, vec![1, 0])])
        .unwrap();
    assert_eq!(ids(&c.search(&vec![5, 5], &Filter::all(), 4, &EXACT).unwrap()), vec![4, 6, 9, 5]);
}

#[test]
fn graph_search_over_a_collection_is_sound() {
    let mut c = collection(2, Distance::Euclid, 2);
    let mut points = Vec::new();
    for id in 0..200u64 {
        points.push(point(id, vec![((id * 37) % 101) as i8, ((id * 53) % 89) as i8]));
    }
    c.upsert_points(1, &points).unwrap();
    let query = vec![50i8, 40];
    let exact = c.search(&query, &at_least(20), 10, &EXACT).unwrap();
    let approx = c.search(&query, &at_least(20), 10, &SearchParams { exact: false, budget: 30 }).unwrap();
    assert_eq!(exact.len(), 10);
    assert!(!approx.is_empty() && approx.len() <= 10);
    for w in approx.windows(2) {
        assert!(qdrant::ranking::comes_before(&w[0], &w[1]));
    }
    for p in approx.iter() {
        assert!(p.id >= 20);
        assert_eq!(p.score, score(Distance::Euclid, &points[p.id as usize].vector, &query));
    }
    let all = c.search(&query, &at_least(20), 10, &SearchParams { exact: false, budget: 1000 }).unwrap();
    assert_eq!(all, exact);
}

#[test]
fn a_selective_filter_makes_any_search_complete() {
    let mut shape = config(2, Distance::Euclid, 3);
    shape.exact_threshold = 2;
    let mut c = match Collection::new(shape) {
        Ok(c) => c,
        Err(e) => panic!("{:?}", e),
    };
    let points: Vec<Point> =
        (0..30u64).map(|id| Point { id, vector: vec![id as i8, 1], payload: tagged((id % 10) as i64) }).collect();
    c.upsert_points(1, &points).unwrap();
    let sevens = Filter {
        must: vec![Condition::Match { key: "n".to_string(), value: Value::Integer(7) }],
        should: vec![],
        must_not: vec![],
    };
    let nothing = SearchParams { exact: false, budget: 0 };
    let found = c.search(&vec![20, 1], &sevens, 2, &nothing).unwrap();
    assert_eq!(ids(&found), vec![17, 27]);
    assert_eq!(found, c.search(&vec![20, 1], &sevens, 2, &EXACT).unwrap());
    let similar = c.recommend(&vec![Example::Id(17)], &vec![], &sevens, 5, &nothing).unwrap();
    assert_eq!(ids(&similar), vec![7, 27]);
    assert!(c.is_exhaustive(&sevens, &nothing));
    assert!(!c.is_exhaustive(&Filter::all(), &nothing));
    assert!(c.is_exhaustive(&Filter::all(), &EXACT));
    assert!(line(Distance::Dot, 3, 6).is_exhaustive(&Filter::all(), &EXACT));
    let mut roomy = config(2, Distance::Dot, 3);
    roomy.exact_threshold = 2;
    let mut small = match Collection::new(roomy) {
        Ok(c) => c,
        Err(e) => panic!("{:?}", e),
    };
    small.upsert_points(1, &vec![point(1, vec![1, 1]), point(4, vec![1, 1]), point(2, vec![1, 1])]).unwrap();
    assert!(small.is_exhaustive(&Filter::all(), &nothing));
    small.upsert_points(1, &vec![point(7, vec![1, 1])]).unwrap();
    assert!(!small.is_exhaustive(&Filter::all(), &nothing));
}

#[test]
fn recommend_from_one_point_is_search_without_it() {
    let c = line(Distance::Euclid, 3, 9);
    for p in 1..=9u64 {
        let v = c.get_point(p).unwrap().vector;
        let similar = c.recommend(&vec![Example::Id(p)], &vec![], &Filter::all(), 4, &EXACT).unwrap();
        let mut searched = c.search(&v, &Filter::all(), 5, &EXACT).unwrap();
        assert_eq!(searched[0].id, p);
        searched.remove(0);
        assert_eq!(similar, searched);
        assert_eq!(similar, c.gather(&v, &Filter::all(), &vec![p], 4, &EXACT));
    }
}

#[test]
fn recommend_leaves_out_every_reference() {
    let c = line(Distance::Dot, 2, 9);
    let positive = vec![Example::Id(9), Example::Vector(vec![9, 1]), Example::Id(8)];
    let negative = vec![Example::Id(1)];
    let similar = c.recommend(&positive, &negative, &Filter::all(), 3, &EXACT).unwrap();
    assert_eq!(ids(&similar), vec![7, 6, 5]);
    assert_eq!(similar[0].score, Score { num: 7 * 15 + 1, den: 1 });
}

#[test]
fn recommend_reports_the_first_failure() {
    let c = line(Distance::Cosine, 2, 3);
    let f = Filter::all();
    let id = |n| Example::Id(n);
    let raw = |v: Vec<i8>| Example::Vector(v);
    assert_eq!(c.recommend(&vec![], &vec![id(77)], &malformed(), 1, &EXACT), Err(EngineError::BadRequest));
    assert_eq!(c.recommend(&vec![id(77)], &vec![], &malformed(), 1, &EXACT), Err(EngineError::BadFilter));
    assert_eq!(c.recommend(&vec![id(1), id(77), raw(vec![1])], &vec![], &f, 1, &EXACT), Err(EngineError::UnknownPoint));
    assert_eq!(c.recommend(&vec![raw(vec![0, 0]), id(77)], &vec![], &f, 1, &EXACT), Err(EngineError::BadVector));
    assert_eq!(c.recommend(&vec![id(1)], &vec![raw(vec![1, 2, 3])], &f, 1, &EXACT), Err(EngineError::BadVector));
    assert_eq!(c.recommend(&vec![id(1)], &vec![id(77)], &f, 1, &EXACT), Err(EngineError::UnknownPoint));
    assert_eq!(
        c.recommend(&vec![raw(vec![1, 1])], &vec![raw(vec![2, 2])], &f, 1, &EXACT),
        Err(EngineError::BadVector)
    );
    assert!(c.recommend(&vec![raw(vec![1, 1])], &vec![raw(vec![2, 1])], &f, 1, &EXACT).is_ok());
}

#[test]
fn the_query_of_a_recommendation() {
    let pos = vec![vec![10i8, -3, 127], vec![20, -4, 127]];
    let neg = vec![vec![4i8, 100, -128]];
    assert_eq!(mean_of(&pos, 0), 15);
    assert_eq!(mean_of(&pos, 1), -3);
    assert_eq!(mean_of(&neg, 2), -128);
    assert_eq!(synthesize(&pos, &vec![], 3), vec![15, -3, 127]);
    assert_eq!(synthesize(&pos, &neg, 3), vec![26, -106, 127]);
    assert_eq!(synthesize(&neg, &pos, 3), vec![-7, 127, -128]);
    assert_eq!(synthesize(&pos, &neg, 0), Vec::<i8>::new());
    let mut out = vec![5u64];
    references(&vec![Example::Id(3), Example::Vector(vec![1]), Example::Id(3)], &mut out);
    assert_eq!(out, vec![5, 3, 3]);
}

#[test]
fn optimization_compacts_segments_with_many_tombstones() {
    let mut c = line(Distance::Dot, 2, 20);
    c.delete_points(2, &vec![2, 4, 6, 1]);
    c.segments[1].mark_failed();
    let before = c.scroll(&Filter::all(), None, 100).unwrap();
    assert_eq!(c.optimize(), Optimization { compacted: 1, merged: false });
    assert_eq!(c.segments[0].size(), 7);
    assert_eq!(c.segments[0].count_dead(), 0);
    assert_eq!(c.segments[1].size(), 10);
    assert_eq!(c.segments[1].count_dead(), 1);
    assert!(c.segments[1].failed);
    assert_eq!(c.scroll(&Filter::all(), None, 100).unwrap(), before);
    assert_eq!(c.optimize(), Optimization { compacted: 0, merged: false });
    assert_eq!(c.upsert_points(1, &vec![point(2, vec![5, 5])]), Ok(vec![UpdateStatus::Applied]));
    c.segments[1].recover();
    c.delete_points(3, &vec![3]);
    assert_eq!(c.optimize(), Optimization { compacted: 0, merged: false });
    c.delete_points(3, &vec![5]);
    assert_eq!(c.optimize(), Optimization { compacted: 1, merged: false });
    assert_eq!(c.segments[1].size(), 7);
    assert_eq!(ids(&c.search(&vec![1, 0], &Filter::all(), 3, &EXACT).unwrap()), vec![20, 19, 18]);
}

#[test]
fn small_segments_are_compacted_at_the_first_tombstone() {
    let mut shape = config(2, Distance::Dot, 2);
    shape.compact_percent = 90;
    shape.small_segment = 5;
    let mut c = match Collection::new(shape) {
        Ok(c) => c,
        Err(e) => panic!("{:?}", e),
    };
    let points: Vec<Point> = (1..=11u64).map(|id| point(id, vec![1, 1])).collect();
    c.upsert_points(1, &points).unwrap();
    assert_eq!((c.segments[0].size(), c.segments[1].size()), (5, 6));
    assert_eq!(c.optimize(), Optimization { compacted: 0, merged: false });
    c.delete_points(2, &vec![2, 3]);
    assert_eq!(c.optimize(), Optimization { compacted: 1, merged: false });
    assert_eq!((c.segments[0].size(), c.segments[1].size()), (4, 6));
    assert_eq!(c.segments[1].count_dead(), 1);
}

#[test]
fn small_segments_are_merged_two_at_a_time() {
    let mut shape = config(2, Distance::Euclid, 3);
    shape.small_segment = 10;
    let mut c = match Collection::new(shape) {
        Ok(c) => c,
        Err(e) => panic!("{:?}", e),
    };
    assert_eq!(c.route, vec![0, 1, 2]);
    assert_eq!(c.optimize(), Optimization { compacted: 0, merged: false });
    let points: Vec<Point> = (1..=9u64).map(|id| point(id, vec![id as i8, 1])).collect();
    c.upsert_points(1, &points).unwrap();
    c.delete_points(2, &vec![6]);
    let before = c.scroll(&Filter::all(), None, 100).unwrap();
    let found = c.search(&vec![4, 1], &Filter::all(), 9, &EXACT).unwrap();
    assert_eq!(c.optimize(), Optimization { compacted: 1, merged: true });
    assert_eq!(c.route, vec![0, 0, 2]);
    assert_eq!((c.segments[0].size(), c.segments[1].size(), c.segments[2].size()), (5, 0, 3));
    assert_eq!(c.scroll(&Filter::all(), None, 100).unwrap(), before);
    assert_eq!(c.search(&vec![4, 1], &Filter::all(), 9, &EXACT).unwrap(), found);
    for id in 0..12u64 {
        assert_eq!(c.home_of(id), if id % 3 == 2 { 2 } else { 0 });
    }
    assert_eq!(c.upsert_points(3, &vec![point(4, vec![0, 0]), point(10, vec![0, 0])]), Ok(vec![UpdateStatus::Applied; 2]));
    assert_eq!(c.upsert_points(1, &vec![point(7, vec![0, 0])]), Ok(vec![UpdateStatus::Stale]));
    assert_eq!((c.segments[0].size(), c.segments[1].size()), (6, 0));
    assert_eq!(c.get_point(4).unwrap().vector, vec![0, 0]);
    assert_eq!(c.optimize(), Optimization { compacted: 0, merged: true });
    assert_eq!(c.route, vec![0, 0, 0]);
    assert_eq!((c.segments[0].size(), c.segments[2].size()), (9, 0));
    assert_eq!(c.optimize(), Optimization { compacted: 0, merged: false });
    assert_eq!(page_ids(&c.scroll(&Filter::all(), None, 100).unwrap()), vec![1, 2, 3, 4, 5, 7, 8, 9, 10]);
    let logs: Vec<Vec<WalEntry>> = c.segments.iter().map(|s| copy_log(&s.wal)).collect();
    let again = match Collection::restore(shape, &c.route, &logs) {
        Ok(c) => c,
        Err(e) => panic!("not restored: {:?}", e),
    };
    for id in 0..12u64 {
        assert_eq!(again.get_point(id), c.get_point(id));
    }
    assert!(matches!(Collection::restore(shape, &vec![0, 1, 2], &logs), Err(EngineError::Corrupted)));
}

#[test]
fn segments_that_refuse_writes_or_hold_tombstones_are_not_merged() {
    let mut shape = config(2, Distance::Euclid, 3);
    shape.small_segment = 10;
    shape.compact_percent = 200;
    let mut c = match Collection::new(shape) {
        Ok(c) => c,
        Err(e) => panic!("{:?}", e),
    };
    let points: Vec<Point> = (1..=9u64).map(|id| point(id, vec![id as i8, 1])).collect();
    c.upsert_points(1, &points).unwrap();
    c.segments[0].mark_failed();
    assert_eq!(c.optimize(), Optimization { compacted: 0, merged: true });
    assert_eq!(c.route, vec![0, 1, 1]);
    assert_eq!((c.segments[0].size(), c.segments[1].size(), c.segments[2].size()), (3, 6, 0));
    assert_eq!(c.optimize(), Optimization { compacted: 0, merged: false });
    assert!(c.segments[0].failed);
}

#[test]
fn a_collection_is_restored_from_its_logs() {
    let mut c = line(Distance::Euclid, 3, 12);
    c.delete_points(2, &vec![3, 4]);
    c.upsert_points(3, &vec![point(4, vec![8, 8]), point(30, vec![9, 9])]).unwrap();
    c.delete_by_filter(4, &at_least(11)).unwrap();
    let logs: Vec<Vec<WalEntry>> = c.segments.iter().map(|s| copy_log(&s.wal)).collect();
    let again = match Collection::restore(config(2, Distance::Euclid, 3), &c.route, &logs) {
        Ok(c) => c,
        Err(e) => panic!("not restored: {:?}", e),
    };
    for id in 0..40u64 {
        assert_eq!(again.get_point(id), c.get_point(id));
    }
    assert_eq!(
        again.scroll(&Filter::all(), None, 100).unwrap(),
        c.scroll(&Filter::all(), None, 100).unwrap()
    );
    assert_eq!(page_ids(&c.scroll(&Filter::all(), None, 100).unwrap()), vec![1, 2, 4, 5, 6, 7, 8, 9, 10]);
}

#[test]
fn logs_that_do_not_fit_the_collection_are_refused() {
    let c = line(Distance::Euclid, 3, 12);
    let logs = || -> Vec<Vec<WalEntry>> { c.segments.iter().map(|s| copy_log(&s.wal)).collect() };
    let restore = |config: CollectionConfig, route: Vec<usize>, logs: Vec<Vec<WalEntry>>| {
        match Collection::restore(config, &route, &logs) {
            Ok(_) => None,
            Err(e) => Some(e),
        }
    };
    let refused = |config: CollectionConfig, logs: Vec<Vec<WalEntry>>| restore(config, vec![0, 1, 2], logs);
    assert_eq!(restore(config(2, Distance::Euclid, 3), vec![0, 1], logs()), Some(EngineError::Corrupted));
    assert_eq!(restore(config(2, Distance::Euclid, 3), vec![0, 1, 3], logs()), Some(EngineError::Corrupted));
    assert_eq!(restore(config(2, Distance::Euclid, 3), vec![0, 2, 1], logs()), Some(EngineError::Corrupted));
    assert_eq!(refused(config(2, Distance::Euclid, 3), logs()), None);
    assert_eq!(refused(config(0, Distance::Euclid, 3), logs()), Some(EngineError::BadRequest));
    assert_eq!(refused(config(2, Distance::Euclid, 2), logs()), Some(EngineError::Corrupted));
    assert_eq!(refused(config(3, Distance::Euclid, 3), logs()), Some(EngineError::Corrupted));
    let mut swapped = logs();
    swapped.swap(0, 1);
    assert_eq!(refused(config(2, Distance::Euclid, 3), swapped), Some(EngineError::Corrupted));
    let mut stray = logs();
    stray[2].push(WalEntry::Delete { version: 9, id: 3 });
    assert_eq!(refused(config(2, Distance::Euclid, 3), stray), Some(EngineError::Corrupted));
}

#[test]
fn the_registry_keeps_names_unique() {
    let mut toc = TableOfContent::new();
    let a = "a".to_string();
    let b = "b".to_string();
    assert_eq!(toc.all_collections(), Vec::<String>::new());
    assert_eq!(toc.create_collection(a.clone(), config(2, Distance::Dot, 1)), Ok(()));
    assert_eq!(toc.create_collection(a.clone(), config(3, Distance::Dot, 1)), Err(EngineError::DuplicateCollection));
    assert_eq!(toc.create_collection(a.clone(), config(0, Distance::Dot, 1)), Err(EngineError::DuplicateCollection));
    assert_eq!(toc.create_collection(b.clone(), config(0, Distance::Dot, 1)), Err(EngineError::BadRequest));
    assert_eq!(toc.create_collection(b.clone(), config(3, Distance::Euclid, 2)), Ok(()));
    assert_eq!(toc.all_collections(), vec![a.clone(), b.clone()]);
    assert_eq!(toc.get_collection(&a).unwrap().config.dim, 2);
    assert_eq!(toc.get_collection(&b).unwrap().config.metric, Distance::Euclid);
    assert!(matches!(toc.get_collection(&"c".to_string()), Err(EngineError::UnknownCollection)));
    assert!(matches!(toc.delete_collection(&"c".to_string()), Err(EngineError::UnknownCollection)));
    assert_eq!(toc.delete_collection(&a).ok().map(|c| c.config.dim), Some(2));
    assert!(matches!(toc.delete_collection(&a), Err(EngineError::UnknownCollection)));
    assert_eq!(toc.all_collections(), vec![b.clone()]);
    assert!(matches!(toc.register(b.clone(), collection(1, Distance::Dot, 1)), Err(EngineError::DuplicateCollection)));
    assert!(toc.register(a.clone(), line(Distance::Dot, 2, 3)).is_ok());
    assert_eq!(toc.all_collections(), vec![b, a.clone()]);
    assert!(toc.get_collection(&a).unwrap().get_point(3).is_ok());
    assert_eq!(EngineError::DuplicateCollection.kind(), ErrorKind::Conflict);
}

#[test]
fn dispatch_reaches_the_named_collection_only() {
    let mut toc = TableOfContent::new();
    let a = "a".to_string();
    let b = "b".to_string();
    toc.register(a.clone(), line(Distance::Dot, 2, 5)).unwrap();
    toc.register(b.clone(), line(Distance::Dot, 2, 5)).unwrap();
    assert!(matches!(toc.dispatch(&"c".to_string(), Operation::Optimize), Err(EngineError::UnknownCollection)));
    assert!(matches!(
        toc.dispatch(&a, Operation::Delete { version: 2, ids: vec![1, 2, 3] }),
        Ok(Outcome::Acknowledged(acks)) if acks == vec![UpdateStatus::Applied; 3]
    ));
    assert!(matches!(toc.dispatch(&a, Operation::DeleteByFilter { version: 2, filter: at_least(5) }), Ok(Outcome::Swept)));
    assert!(matches!(toc.dispatch(&a, Operation::Get { id: 4 }), Ok(Outcome::Found(r)) if r.id == 4));
    assert!(matches!(toc.dispatch(&a, Operation::Get { id: 5 }), Err(EngineError::UnknownPoint)));
    assert!(matches!(toc.dispatch(&a, Operation::Retrieve { ids: vec![5, 4, 1] }), Ok(Outcome::Records(r)) if r.len() == 1));
    assert!(matches!(
        toc.dispatch(&a, Operation::Scroll { filter: Filter::all(), cursor: None, limit: 9 }),
        Ok(Outcome::Page(p)) if page_ids(&p) == vec![4] && p.next == None
    ));
    assert!(matches!(
        toc.dispatch(&b, Operation::Search { query: vec![1, 1], filter: Filter::all(), top_k: 2, params: EXACT }),
        Ok(Outcome::Ranking(r)) if ids(&r) == vec![5, 4]
    ));
    assert!(matches!(
        toc.dispatch(
            &b,
            Operation::Recommend {
                positive: vec![Example::Id(5)],
                negative: vec![],
                filter: Filter::all(),
                top_k: 2,
                params: EXACT,
            }
        ),
        Ok(Outcome::Ranking(r)) if ids(&r) == vec![4, 3]
    ));
    assert!(matches!(
        toc.dispatch(&a, Operation::Upsert { version: 1, points: vec![point(6, vec![1])] }),
        Err(EngineError::BadVector)
    ));
    assert!(matches!(
        toc.dispatch(&a, Operation::Optimize),
        Ok(Outcome::Optimized(Optimization { compacted: 2, merged: false }))
    ));
    assert_eq!(page_ids(&toc.get_collection(&b).unwrap().scroll(&Filter::all(), None, 9).unwrap()), vec![1, 2, 3, 4, 5]);
}

#[test]
fn every_error_has_its_class() {
    assert_eq!(EngineError::UnknownCollection.kind(), ErrorKind::NotFound);
    assert_eq!(EngineError::UnknownPoint.kind(), ErrorKind::NotFound);
    assert_eq!(EngineError::BadVector.kind(), ErrorKind::InvalidInput);
    assert_eq!(EngineError::BadFilter.kind(), ErrorKind::InvalidInput);
    assert_eq!(EngineError::BadRequest.kind(), ErrorKind::InvalidInput);
    assert_eq!(EngineError::DuplicateCollection.kind(), ErrorKind::Conflict);
    assert_eq!(EngineError::StaleVersion.kind(), ErrorKind::Conflict);
    assert_eq!(EngineError::Saturated.kind(), ErrorKind::ResourceExhausted);
    assert_eq!(EngineError::SegmentFailed.kind(), ErrorKind::Internal);
    assert_eq!(EngineError::Corrupted.kind(), ErrorKind::Internal);
}

#[test]
fn unreadable_requests_get_their_status() {
    assert_eq!(status_for(PayloadFault::ContentType), 415);
    assert_eq!(status_for(PayloadFault::Deserialize { data: true }), 422);
    assert_eq!(status_for(PayloadFault::Deserialize { data: false }), 400);
    assert_eq!(status_for(PayloadFault::Other), 400);
}

#[test]
fn the_service_names_itself() {
    let info = version_info("0.3.1".to_string());
    assert_eq!(info.title, "qdrant - vector search engine");
    assert_eq!(info.version, "0.3.1");
}
