use qdrant::error::EngineError;
use qdrant::filter::{Condition, Filter};
use qdrant::index::{level_for, VectorIndex, MAX_LAYERS};
use qdrant::metric::Distance;
use qdrant::model::UpdateStatus;
use qdrant::payload::{Field, Payload, Value};
use qdrant::postings::PayloadIndex;
use qdrant::segment::{Segment, SegmentConfig, WalEntry};

fn config(exact_threshold: usize) -> SegmentConfig {
    SegmentConfig {
        dim: 2,
        metric: Distance::Euclid,
        max_degree: 4,
        build_budget: 16,
        exact_threshold,
    }
}

fn tagged(n: i64) -> Payload {
    Payload { fields: vec![Field { key: "n".to_string(), value: Value::Integer(n) }] }
}

fn grid(exact_threshold: usize) -> Segment {
    let mut s = Segment::new(config(exact_threshold));
    let mut id: u64 = 0;
    for x in 0..8i8 {
        for y in 0..8i8 {
            assert_eq!(s.upsert(1, id, vec![x * 10, y * 10], tagged(id as i64)), UpdateStatus::Applied);
            id += 1;
        }
    }
    s
}

#[test]
fn levels_follow_powers_of_four() {
    assert_eq!(level_for(0), 0);
    assert_eq!(level_for(1), 0);
    assert_eq!(level_for(3), 1);
    assert_eq!(level_for(7), 1);
    assert_eq!(level_for(15), 2);
    assert_eq!(level_for(63), 3);
    assert_eq!(level_for(usize::MAX), MAX_LAYERS - 1);
}

#[test]
fn a_graph_has_a_degree_of_at_least_one() {
    assert_eq!(VectorIndex::new(0).max_degree, 1);
    assert_eq!(VectorIndex::new(7).max_degree, 7);
}

#[test]
fn upsert_inserts_updates_and_rejects_stale_versions() {
    let mut s = Segment::new(config(100));
    assert_eq!(s.upsert(5, 1, vec![1, 1], tagged(1)), UpdateStatus::Applied);
    assert_eq!(s.upsert(5, 1, vec![2, 2], tagged(2)), UpdateStatus::Stale);
    assert_eq!(s.upsert(4, 1, vec![3, 3], tagged(3)), UpdateStatus::Stale);
    let r = s.get(1).unwrap();
    assert_eq!((r.id, r.version, r.vector, r.payload), (1, 5, vec![1, 1], tagged(1)));
    assert_eq!(s.upsert(6, 1, vec![4, 4], tagged(4)), UpdateStatus::Applied);
    let r = s.get(1).unwrap();
    assert_eq!((r.version, r.vector, r.payload), (6, vec![4, 4], tagged(4)));
    assert_eq!(s.size(), 1);
}

#[test]
fn delete_leaves_a_tombstone_with_its_version() {
    let mut s = Segment::new(config(100));
    assert_eq!(s.delete(9, 1), UpdateStatus::Missing);
    assert_eq!(s.upsert(5, 1, vec![1, 1], tagged(1)), UpdateStatus::Applied);
    assert_eq!(s.delete(5, 1), UpdateStatus::Stale);
    assert!(s.get(1).is_some());
    assert_eq!(s.delete(7, 1), UpdateStatus::Applied);
    assert_eq!(s.get(1), None);
    assert!(s.knows(1));
    assert_eq!(s.size(), 1);
    assert_eq!(s.count_dead(), 1);
    assert_eq!(s.delete(8, 1), UpdateStatus::Missing);
    assert_eq!(s.upsert(8, 1, vec![2, 2], tagged(2)), UpdateStatus::Stale);
    assert_eq!(s.upsert(9, 1, vec![2, 2], tagged(2)), UpdateStatus::Applied);
    assert_eq!(s.get(1).unwrap().vector, vec![2, 2]);
    assert_eq!(s.count_dead(), 0);
}

#[test]
fn a_failed_segment_refuses_writes_until_recovered() {
    let mut s = Segment::new(config(100));
    assert_eq!(s.upsert(1, 1, vec![1, 1], tagged(1)), UpdateStatus::Applied);
    s.mark_failed();
    assert_eq!(s.upsert(2, 1, vec![2, 2], tagged(2)), UpdateStatus::Refused);
    assert_eq!(s.upsert(2, 3, vec![2, 2], tagged(2)), UpdateStatus::Refused);
    assert_eq!(s.delete(2, 1), UpdateStatus::Refused);
    s.sweep(9, &Filter::all());
    assert_eq!(s.replay(&vec![WalEntry::Delete { version: 9, id: 1 }]), Err(EngineError::SegmentFailed));
    assert_eq!(s.get(1).unwrap().vector, vec![1, 1]);
    assert_eq!(s.get(3), None);
    assert!(!s.is_due(0, 100));
    s.recover();
    assert_eq!(s.delete(2, 1), UpdateStatus::Applied);
}

#[test]
fn every_applied_mutation_is_logged_in_order() {
    let mut s = Segment::new(config(100));
    s.upsert(1, 1, vec![1, 1], tagged(1));
    s.upsert(1, 1, vec![9, 9], tagged(9));
    s.delete(2, 1);
    s.delete(2, 7);
    s.upsert(3, 2, vec![2, 2], tagged(2));
    assert_eq!(s.wal.len(), 3);
    assert!(matches!(&s.wal[0], WalEntry::Upsert { version: 1, id: 1, vector, .. } if *vector == vec![1i8, 1]));
    assert!(matches!(&s.wal[1], WalEntry::Delete { version: 2, id: 1 }));
    assert!(matches!(&s.wal[2], WalEntry::Upsert { version: 3, id: 2, .. }));
}

#[test]
fn replaying_the_log_restores_the_points() {
    let mut s = grid(100);
    s.delete(2, 10);
    s.upsert(3, 11, vec![1, 2], tagged(-11));
    s.upsert(2, 12, vec![3, 4], tagged(-12));
    s.sweep(
        4,
        &Filter {
            must: vec![Condition::Range { key: "n".to_string(), lower: Some(60), upper: None }],
            should: vec![],
            must_not: vec![],
        },
    );
    let mut again = Segment::new(config(100));
    assert_eq!(again.replay(&s.wal), Ok(()));
    for id in 0..70u64 {
        assert_eq!(again.get(id), s.get(id));
    }
    assert_eq!(again.get(10), None);
    assert_eq!(again.get(63), None);
    assert_eq!(again.get(11).unwrap().payload, tagged(-11));
    assert_eq!(again.get(12).unwrap().version, 2);
}

#[test]
fn a_log_that_does_not_fit_is_not_applied() {
    let mut s = Segment::new(config(100));
    let log = vec![
        WalEntry::Upsert { version: 1, id: 1, vector: vec![1, 1], payload: Payload::new() },
        WalEntry::Upsert { version: 1, id: 2, vector: vec![1, 1, 1], payload: Payload::new() },
    ];
    assert_eq!(s.replay(&log), Err(EngineError::Corrupted));
    assert_eq!(s.size(), 0);
    assert_eq!(s.get(1), None);
}

#[test]
fn sweep_deletes_what_the_filter_matches() {
    let mut s = grid(100);
    s.upsert(7, 5, vec![0, 0], tagged(5));
    s.sweep(
        5,
        &Filter {
            must: vec![Condition::Range { key: "n".to_string(), lower: None, upper: Some(9) }],
            should: vec![],
            must_not: vec![],
        },
    );
    for id in 0..10u64 {
        assert_eq!(s.get(id).is_some(), id == 5);
    }
    assert!(s.get(10).is_some());
    assert_eq!(s.count_dead(), 9);
}

#[test]
fn compaction_drops_tombstones_and_keeps_the_rest() {
    let mut s = grid(100);
    for id in 0..32u64 {
        s.delete(2, id * 2);
    }
    assert_eq!(s.count_dead(), 32);
    assert!(s.is_due(50, 0));
    assert!(!s.is_due(51, 0));
    assert!(!s.is_due(51, 63));
    assert!(s.is_due(51, 64));
    let c = s.compacted();
    assert_eq!(c.size(), 32);
    assert_eq!(c.count_dead(), 0);
    assert!(!c.is_due(0, 100));
    for id in 0..64u64 {
        assert_eq!(c.get(id), s.get(id));
        assert_eq!(c.knows(id), id % 2 == 1);
    }
    assert_eq!(c.wal.len(), 32);
}

#[test]
fn exact_search_ranks_by_distance_then_id() {
    let s = grid(100);
    let r = s.search(&vec![10, 10], &Filter::all(), &vec![], 5, false, 0);
    let ids: Vec<u64> = r.iter().map(|p| p.id).collect();
    assert_eq!(ids, vec![9, 1, 8, 10, 17]);
    assert_eq!(r[0].score.num, 0);
    assert_eq!(r[1].score.num, -100);
    assert_eq!(r[4].score.num, -100);
}

#[test]
fn search_skips_tombstones_filtered_and_excluded_points() {
    let mut s = grid(100);
    s.delete(2, 1);
    let not_eight = Filter {
        must: vec![],
        should: vec![],
        must_not: vec![Condition::Match { key: "n".to_string(), value: Value::Integer(8) }],
    };
    let r = s.search(&vec![10, 10], &not_eight, &vec![9], 3, true, 0);
    let ids: Vec<u64> = r.iter().map(|p| p.id).collect();
    assert_eq!(ids, vec![10, 17, 0]);
}

#[test]
fn graph_search_reports_only_what_it_may_and_in_order() {
    let mut s = grid(0);
    s.delete(2, 27);
    let even = Filter {
        must: vec![Condition::AnyOf {
            key: "n".to_string(),
            values: (0..32).map(|i| Value::Integer(i * 2)).collect(),
        }],
        should: vec![],
        must_not: vec![],
    };
    let query = vec![33i8, 31];
    let approx = s.search(&query, &even, &vec![26], 6, false, 64);
    let exact = s.search(&query, &even, &vec![26], 6, true, 0);
    assert!(!approx.is_empty());
    assert!(approx.len() <= 6);
    assert_eq!(exact.len(), 6);
    for w in approx.windows(2) {
        assert!(qdrant::ranking::comes_before(&w[0], &w[1]));
    }
    for p in approx.iter() {
        assert!(p.id % 2 == 0 && p.id != 26 && p.id != 27);
        let v = s.get(p.id).unwrap().vector;
        assert_eq!(p.score, qdrant::metric::score(Distance::Euclid, &v, &query));
        assert!(!qdrant::ranking::comes_before(p, &exact[0]));
    }
}

#[test]
fn graph_search_with_a_generous_budget_finds_the_nearest() {
    let s = grid(0);
    let r = s.search(&vec![42, 38], &Filter::all(), &vec![], 1, false, 1000);
    assert_eq!(r.len(), 1);
    assert_eq!(r[0].id, 4 * 8 + 4);
    assert_eq!(r[0].score.num, -8);
}

#[test]
fn graph_search_without_budget_reports_at_most_its_start() {
    let s = grid(0);
    let r = s.search(&vec![42, 38], &Filter::all(), &vec![], 3, false, 0);
    assert!(r.len() <= 1);
}

#[test]
fn the_graph_is_in_order_after_many_inserts() {
    let s = grid(0);
    let g = &s.index;
    assert_eq!(g.links.len(), 64);
    assert_eq!(g.tombstones.len(), 64);
    for (node, layers) in g.links.iter().enumerate() {
        assert_eq!(layers.len(), level_for(node) + 1);
        assert!(layers.len() <= g.links[g.entry].len());
        for (layer, list) in layers.iter().enumerate() {
            assert!(list.len() <= g.max_degree);
            for nb in list.iter() {
                assert!(g.links[*nb].len() > layer);
            }
        }
    }
    assert_eq!(g.entry, 63);
}

fn exactly(n: i64) -> Filter {
    Filter {
        must: vec![
            Condition::Contains { key: "name".to_string(), needle: "".to_string() },
            Condition::Match { key: "n".to_string(), value: Value::Integer(n) },
        ],
        should: vec![],
        must_not: vec![],
    }
}

#[test]
fn postings_list_offsets_by_field_and_value() {
    let mut index = PayloadIndex::new();
    let n = "n".to_string();
    let m = "m".to_string();
    assert_eq!(index.postings(&n, 1), None);
    index.add(&n, 1, 10);
    index.add(&m, 1, 11);
    index.add(&n, 2, 12);
    index.add(&n, 1, 13);
    index.add(&n, 1, 10);
    assert_eq!(index.postings(&n, 1), Some(&vec![10, 13, 10]));
    assert_eq!(index.postings(&n, 2), Some(&vec![12]));
    assert_eq!(index.postings(&m, 1), Some(&vec![11]));
    assert_eq!(index.postings(&m, 2), None);
    assert_eq!(index.postings(&"k".to_string(), 1), None);
    assert_eq!(index.field(&m), Some(1));
    assert_eq!(index.field(&"k".to_string()), None);
}

#[test]
fn a_payload_is_listed_under_every_integer_it_holds() {
    let mut index = PayloadIndex::new();
    let payload = Payload {
        fields: vec![
            Field { key: "a".to_string(), value: Value::Integers(vec![3, 4]) },
            Field { key: "b".to_string(), value: Value::Text("3".to_string()) },
            Field { key: "c".to_string(), value: Value::Integer(3) },
            Field { key: "c".to_string(), value: Value::Bool(true) },
        ],
    };
    index.index_payload(&payload, 7);
    assert_eq!(index.postings(&"a".to_string(), 3), Some(&vec![7]));
    assert_eq!(index.postings(&"a".to_string(), 4), Some(&vec![7]));
    assert_eq!(index.postings(&"a".to_string(), 5), None);
    assert_eq!(index.postings(&"b".to_string(), 3), None);
    assert_eq!(index.postings(&"c".to_string(), 3), Some(&vec![7]));
    assert_eq!(index.fields.len(), 2);
}

#[test]
fn a_selective_filter_is_answered_exactly_whatever_the_budget() {
    let mut s = grid(4);
    for id in [5u64, 50, 60] {
        assert_eq!(s.upsert(2, id, vec![70, 70], tagged(37)), UpdateStatus::Applied);
    }
    assert_eq!(s.upsert(3, 50, vec![70, 70], tagged(-1)), UpdateStatus::Applied);
    let only = Filter {
        must: vec![Condition::Match { key: "n".to_string(), value: Value::Integer(37) }],
        should: vec![],
        must_not: vec![],
    };
    assert_eq!(only.anchor(), Some(0));
    assert_eq!(exactly(37).anchor(), Some(1));
    assert_eq!(Filter::all().anchor(), None);
    assert_eq!(s.postings.postings(&"n".to_string(), 37).map(|l| l.len()), Some(4));
    let found = s.search(&vec![0, 0], &only, &vec![], 10, false, 0);
    let ids: Vec<u64> = found.iter().map(|p| p.id).collect();
    assert_eq!(ids, vec![37, 5, 60]);
    assert_eq!(found, s.search(&vec![0, 0], &only, &vec![], 10, true, 0));
    assert_eq!(s.upsert(4, 61, vec![70, 70], tagged(37)), UpdateStatus::Applied);
    assert_eq!(s.search(&vec![0, 0], &only, &vec![], 10, false, 0), vec![]);
    assert_eq!(s.search(&vec![0, 0], &only, &vec![], 10, true, 0).len(), 4);
    assert_eq!(s.delete(5, 61), UpdateStatus::Applied);
    let none = Filter {
        must: vec![Condition::Match { key: "n".to_string(), value: Value::Integer(1000) }],
        should: vec![],
        must_not: vec![],
    };
    assert_eq!(s.search(&vec![0, 0], &none, &vec![], 10, false, 0), vec![]);
    let other_field = Filter {
        must: vec![Condition::Match { key: "m".to_string(), value: Value::Integer(37) }],
        should: vec![],
        must_not: vec![],
    };
    assert_eq!(s.search(&vec![0, 0], &other_field, &vec![], 10, false, 1000), vec![]);
    s.delete(4, 37);
    let c = s.compacted();
    let ids: Vec<u64> = c.search(&vec![0, 0], &only, &vec![60], 10, false, 0).iter().map(|p| p.id).collect();
    assert_eq!(ids, vec![5]);
    assert_eq!(c.postings.postings(&"n".to_string(), 37).map(|l| l.len()), Some(2));
}

#[test]
fn a_search_scans_when_asked_to_or_when_little_is_at_stake() {
    let s = grid(4);
    let all = Filter::all();
    assert!(s.will_scan(&all, true));
    assert!(!s.will_scan(&all, false));
    assert!(s.will_scan(&exactly(5), false));
    assert!(s.will_scan(&exactly(1000), false));
    let small = Segment::new(config(4));
    assert!(small.will_scan(&all, false));
    let mut crowded = grid(4);
    for id in 0..5u64 {
        crowded.upsert(2, id, vec![1, 1], tagged(5));
    }
    assert!(!crowded.will_scan(&exactly(5), false));
}

#[test]
fn a_sweep_logs_its_deletes_in_the_order_of_the_offsets() {
    let mut s = Segment::new(config(100));
    for id in [30u64, 10, 20, 40] {
        s.upsert(1, id, vec![1, 1], tagged(id as i64));
    }
    s.upsert(9, 20, vec![1, 1], tagged(20));
    s.delete(2, 40);
    let logged = s.wal.len();
    s.sweep(
        5,
        &Filter {
            must: vec![Condition::Range { key: "n".to_string(), lower: Some(10), upper: Some(40) }],
            should: vec![],
            must_not: vec![],
        },
    );
    assert_eq!(s.wal.len(), logged + 2);
    assert!(matches!(&s.wal[logged], WalEntry::Delete { version: 5, id: 30 }));
    assert!(matches!(&s.wal[logged + 1], WalEntry::Delete { version: 5, id: 10 }));
    s.mark_failed();
    s.sweep(9, &Filter::all());
    assert_eq!(s.wal.len(), logged + 2);
}

#[test]
fn the_walk_and_the_exploration_spend_their_budget() {
    let s = grid(0);
    let g = &s.index;
    let query = vec![72i8, 68];
    assert_eq!(g.descend(&s.store, Distance::Euclid, &query, 0, 0), (g.entry, 0));
    let (node, left) = g.descend(&s.store, Distance::Euclid, &query, 0, 50);
    assert!(left < 50);
    let start = s.store.score_at(Distance::Euclid, &query, g.entry);
    let end = s.store.score_at(Distance::Euclid, &query, node);
    assert!(node == g.entry || qdrant::ranking::comes_before(&end, &start));
    for nb in g.links[node][1].iter() {
        assert!(!qdrant::ranking::comes_before(&s.store.score_at(Distance::Euclid, &query, *nb), &end));
    }
    let count = |marks: &Vec<bool>| marks.iter().filter(|m| **m).count();
    let none = g.explore(&s.store, Distance::Euclid, &query, 0, 0, 0, 3, None, &vec![]);
    assert_eq!(count(&none.visited), 1);
    assert_eq!(none.offsets, vec![0]);
    let one = g.explore(&s.store, Distance::Euclid, &query, 0, 0, 1, 3, None, &vec![]);
    let mut around: Vec<usize> = g.links[0][0].clone();
    around.push(0);
    around.sort();
    around.dedup();
    assert_eq!(count(&one.visited), around.len());
    for o in around.iter() {
        assert!(one.visited[*o]);
    }
    let all = g.explore(&s.store, Distance::Euclid, &query, 0, 0, 1000, 1, None, &vec![]);
    assert_eq!(count(&all.visited), 64);
    assert_eq!(all.offsets, vec![7 * 8 + 7]);
    let found = g.search(&s.store, Distance::Euclid, &query, 1000, 2, &Filter::all(), &vec![]);
    assert_eq!(found.offsets, vec![63, 62]);
    assert_eq!(count(&found.visited), 64);
}

#[test]
fn a_new_node_is_linked_to_what_an_exploration_finds_and_linked_back() {
    let mut s = grid(0);
    let before = s.index.links.clone();
    let budget = 16;
    let query = vec![33i8, 37];
    let walk = s.index.descend(&s.store, Distance::Euclid, &query, 0, budget);
    let mut store = qdrant::storage::PointStore::new(2);
    for o in 0..64usize {
        store.append(s.store.ids[o], 1, s.store.vectors[o].clone(), Payload::new());
    }
    store.append(64, 1, query.clone(), Payload::new());
    let expected = s.index.explore(&store, Distance::Euclid, &query, walk.0, 0, budget, 4, None, &vec![]);
    assert_eq!(s.upsert(2, 64, query.clone(), tagged(64)), UpdateStatus::Applied);
    let g = &s.index;
    assert_eq!(g.links[64].len(), 1);
    assert_eq!(g.links[64][0], expected.offsets);
    for node in 0..64usize {
        for layer in 0..before[node].len() {
            let was = &before[node][layer];
            let now = &g.links[node][layer];
            if layer == 0 && expected.offsets.contains(&node) {
                if was.len() < 4 {
                    let mut grown = was.clone();
                    grown.push(64);
                    assert_eq!(now, &grown);
                } else {
                    assert_eq!(now.len(), 4);
                    assert!(now.iter().zip(was.iter()).filter(|(a, b)| a != b).count() <= 1);
                    assert!(now.iter().zip(was.iter()).all(|(a, b)| a == b || *a == 64));
                }
            } else {
                assert_eq!(now, was);
            }
        }
    }
}
