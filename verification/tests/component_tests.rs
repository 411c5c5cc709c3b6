use hnsw_builder::builder::GraphLinearBuilder;
use hnsw_builder::entry::{EntryPoint, EntryPoints};
use hnsw_builder::queue::FixedLengthPriorityQueue;
use hnsw_builder::scored::{cmp_ranks_before, ScoredPointOffset};
use hnsw_builder::scorer::{dot, FilteredScorer, VectorStorage};
use hnsw_builder::visited::VisitedPool;
use hnsw_builder::HnswError;

fn storage_from(dim: usize, rows: Vec<Vec<i64>>) -> VectorStorage {
    let mut st = VectorStorage::new(dim);
    for row in rows {
        st.push_vector(row);
    }
    st
}

#[test]
fn rank_order_prefers_score_then_smaller_id() {
    let a = ScoredPointOffset { idx: 3, score: 10 };
    let b = ScoredPointOffset { idx: 1, score: 7 };
    let c = ScoredPointOffset { idx: 0, score: 10 };
    assert!(cmp_ranks_before(a, b));
    assert!(!cmp_ranks_before(b, a));
    assert!(cmp_ranks_before(c, a));
    assert!(!cmp_ranks_before(a, c));
    assert!(!cmp_ranks_before(a, a));
}

#[test]
fn queue_push_evicts_worst_when_full() {
    let mut q = FixedLengthPriorityQueue::new(2);
    assert!(q.push(ScoredPointOffset { idx: 1, score: 10 }).is_none());
    assert!(q.push(ScoredPointOffset { idx: 2, score: 5 }).is_none());
    let displaced = q.push(ScoredPointOffset { idx: 3, score: 7 });
    assert_eq!(displaced, Some(ScoredPointOffset { idx: 2, score: 5 }));
    assert_eq!(q.top(), Some(ScoredPointOffset { idx: 3, score: 7 }));
    let rejected = q.push(ScoredPointOffset { idx: 4, score: 1 });
    assert_eq!(rejected, Some(ScoredPointOffset { idx: 4, score: 1 }));
    let sorted = q.into_sorted_vec();
    assert_eq!(
        sorted,
        vec![
            ScoredPointOffset { idx: 1, score: 10 },
            ScoredPointOffset { idx: 3, score: 7 },
        ],
    );
}

#[test]
fn queue_breaks_score_ties_by_smaller_id() {
    let mut q = FixedLengthPriorityQueue::new(2);
    q.push(ScoredPointOffset { idx: 1, score: 10 });
    q.push(ScoredPointOffset { idx: 3, score: 7 });
    let displaced = q.push(ScoredPointOffset { idx: 5, score: 10 });
    assert_eq!(displaced, Some(ScoredPointOffset { idx: 3, score: 7 }));
    let sorted = q.into_sorted_vec();
    assert_eq!(
        sorted,
        vec![
            ScoredPointOffset { idx: 1, score: 10 },
            ScoredPointOffset { idx: 5, score: 10 },
        ],
    );
}

#[test]
fn dot_product_is_exact() {
    let a: Vec<i64> = vec![1, -2, 3];
    let b: Vec<i64> = vec![4, 5, -6];
    assert_eq!(dot(&a, &b), 4 - 10 - 18);
}

#[test]
fn scorer_filters_before_scoring_and_respects_limit() {
    let st = storage_from(2, vec![vec![1, 0], vec![2, 0], vec![3, 0], vec![4, 0]]);
    let filter = vec![true, false, true, true];
    let scorer = FilteredScorer::new(&st, vec![10, 0], Some(&filter));
    assert!(scorer.check_vector(0));
    assert!(!scorer.check_vector(1));
    assert!(!scorer.check_vector(9));
    let mut ids: Vec<u32> = vec![1, 0, 2, 3, 7];
    let scores = scorer.score_points(&mut ids, 2);
    assert_eq!(ids, vec![0, 2]);
    assert_eq!(scores.len(), 2);
    assert_eq!(scores[0], ScoredPointOffset { idx: 0, score: 10 });
    assert_eq!(scores[1], ScoredPointOffset { idx: 2, score: 30 });
}

#[test]
fn visited_pool_marks_and_clears_on_reuse() {
    let mut pool = VisitedPool::new(8);
    let mut list = pool.get(8).unwrap();
    assert!(!list.check_and_update_visited(3));
    assert!(list.check_and_update_visited(3));
    assert!(list.check(3));
    assert!(!list.check(4));
    pool.return_back(list);
    let reused = pool.get(8).unwrap();
    assert!(!reused.check(3));
}

#[test]
fn visited_pool_rejects_requests_over_maximum() {
    let mut pool = VisitedPool::new(4);
    match pool.get(5) {
        Err(HnswError::CapacityExceeded) => {}
        _ => panic!("a request above the configured maximum must be refused"),
    }
    assert!(pool.get(4).is_ok());
}

#[test]
fn registry_installs_then_returns_then_replaces() {
    let st = storage_from(1, vec![vec![1], vec![2], vec![3]]);
    let scorer = FilteredScorer::new(&st, vec![1], None);
    let mut reg = EntryPoints::new(2);
    // no admissible descriptor: install and hand back nothing
    assert_eq!(reg.new_point(0, 1, &scorer), None);
    // an admissible descriptor exists: hand it back, keep it (level not higher)
    assert_eq!(reg.new_point(1, 0, &scorer), Some(EntryPoint { point_id: 0, level: 1 }));
    // higher level: hand back the old descriptor, then replace it
    assert_eq!(reg.new_point(2, 5, &scorer), Some(EntryPoint { point_id: 0, level: 1 }));
    assert_eq!(reg.new_point(1, 0, &scorer), Some(EntryPoint { point_id: 2, level: 5 }));
}

#[test]
fn heuristic_prunes_candidate_closer_to_selected_than_to_query() {
    // query (10, 1); point 0 = (10, 0); point 1 = (10, -1); point 2 = (0, 10)
    // point 1 scores 100 against point 0 but only 99 against the query: pruned.
    // point 2 scores 0 against point 0 and 10 against the query: kept.
    let st = storage_from(2, vec![vec![10, 0], vec![10, -1], vec![0, 10]]);
    let scorer = FilteredScorer::new(&st, vec![10, 1], None);
    let candidates = vec![
        ScoredPointOffset { idx: 0, score: 100 },
        ScoredPointOffset { idx: 1, score: 99 },
        ScoredPointOffset { idx: 2, score: 10 },
    ];
    let selected =
        GraphLinearBuilder::select_candidate_with_heuristic_from_sorted(candidates, 3, &scorer);
    assert_eq!(selected, vec![0, 2]);
}

#[test]
fn heuristic_stops_at_budget() {
    let st = storage_from(2, vec![vec![10, 0], vec![0, 10], vec![5, 5]]);
    let scorer = FilteredScorer::new(&st, vec![1, 1], None);
    let candidates = vec![
        ScoredPointOffset { idx: 0, score: 10 },
        ScoredPointOffset { idx: 1, score: 10 },
        ScoredPointOffset { idx: 2, score: 10 },
    ];
    let selected =
        GraphLinearBuilder::select_candidate_with_heuristic_from_sorted(candidates, 1, &scorer);
    assert_eq!(selected, vec![0]);
}
