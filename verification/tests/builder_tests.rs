use hnsw_builder::builder::GraphLinearBuilder;
use hnsw_builder::entry::EntryPoint;
use hnsw_builder::multivec::{MetricQueryScorer, MultiVector, MultiVectorStorage};
use hnsw_builder::scorer::{FilteredScorer, VectorStorage};
use hnsw_builder::HnswError;

fn lcg(state: &mut u64) -> u64 {
    *state = state
        .wrapping_mul(6364136223846793005)
        .wrapping_add(1442695040888963407);
    *state
}

fn rand_vec(state: &mut u64, dim: usize) -> Vec<i64> {
    (0..dim).map(|_| ((lcg(state) >> 50) as i64) - 8192).collect()
}

fn storage_of(dim: usize, rows: Vec<Vec<i64>>) -> VectorStorage {
    let mut st = VectorStorage::new(dim);
    for row in rows {
        st.push_vector(row);
    }
    st
}

fn random_storage(dim: usize, n: usize, seed: u64) -> VectorStorage {
    let mut state = seed;
    let mut st = VectorStorage::new(dim);
    for _ in 0..n {
        st.push_vector(rand_vec(&mut state, dim));
    }
    st
}

fn insert_point(builder: &mut GraphLinearBuilder, storage: &VectorStorage, id: u32) {
    let query = storage.vectors[id as usize].clone();
    let scorer = FilteredScorer::new(storage, query, None);
    builder.link_new_point(id, &scorer).unwrap();
}

fn build(storage: &VectorStorage, levels: Vec<usize>, m: usize, ef: usize, order: &[u32]) -> GraphLinearBuilder {
    let mut builder = GraphLinearBuilder::new(levels, m, 2 * m, ef, 10);
    for &id in order {
        insert_point(&mut builder, storage, id);
    }
    builder
}

fn all_lists(builder: &GraphLinearBuilder, n: u32) -> Vec<Vec<Vec<u32>>> {
    (0..n)
        .map(|p| {
            (0..builder.levels(p))
                .map(|l| builder.neighbors(p, l))
                .collect()
        })
        .collect()
}

fn check_invariants(builder: &GraphLinearBuilder, n: u32, m: usize) {
    for p in 0..n {
        for l in 0..builder.levels(p) {
            let list = builder.neighbors(p, l);
            let cap = if l == 0 { 2 * m } else { m };
            assert!(list.len() <= cap, "cap exceeded at point {p} layer {l}");
            assert!(!list.contains(&p), "self-loop at point {p} layer {l}");
            for i in 0..list.len() {
                assert!((list[i] as usize) < n as usize);
                for j in (i + 1)..list.len() {
                    assert_ne!(list[i], list[j], "duplicate at point {p} layer {l}");
                }
            }
        }
    }
}

#[test]
fn empty_build_completes_with_empty_graph() {
    let builder = GraphLinearBuilder::new(vec![], 8, 16, 16, 10);
    assert_eq!(builder.entry_points().len(), 0);
    assert_eq!(builder.params(), (8, 16, 16));
}

#[test]
fn single_point_has_no_links_and_is_sole_entry() {
    let storage = storage_of(2, vec![vec![3, 4]]);
    let builder = build(&storage, vec![2], 4, 8, &[0]);
    assert_eq!(builder.entry_points(), vec![EntryPoint { point_id: 0, level: 2 }]);
    assert_eq!(builder.levels(0), 3);
    for l in 0..3 {
        assert_eq!(builder.neighbors(0, l), Vec::<u32>::new());
    }
}

#[test]
fn two_identical_points_link_each_other() {
    let storage = storage_of(2, vec![vec![5, 5], vec![5, 5]]);
    let builder = build(&storage, vec![0, 0], 4, 8, &[0, 1]);
    assert_eq!(builder.neighbors(0, 0), vec![1]);
    assert_eq!(builder.neighbors(1, 0), vec![0]);
}

#[test]
fn flat_levels_leave_only_the_base_layer() {
    let storage = random_storage(4, 12, 7);
    let builder = build(&storage, vec![0; 12], 3, 6, &(0..12).collect::<Vec<u32>>());
    for p in 0..12u32 {
        assert_eq!(builder.levels(p), 1);
    }
    check_invariants(&builder, 12, 3);
}

#[test]
fn caps_no_self_loops_no_duplicates() {
    let n = 30usize;
    let storage = random_storage(4, n, 42);
    let levels: Vec<usize> = (0..n).map(|p| p % 3).collect();
    let order: Vec<u32> = (0..n as u32).collect();
    let builder = build(&storage, levels, 2, 4, &order);
    check_invariants(&builder, n as u32, 2);
}

#[test]
fn identical_builds_produce_identical_graphs() {
    let n = 25usize;
    let storage = random_storage(4, n, 99);
    let levels: Vec<usize> = (0..n).map(|p| (p * 7 + 1) % 3).collect();
    let order: Vec<u32> = (0..n as u32).collect();
    let b1 = build(&storage, levels.clone(), 3, 5, &order);
    let b2 = build(&storage, levels, 3, 5, &order);
    assert_eq!(all_lists(&b1, n as u32), all_lists(&b2, n as u32));
    assert_eq!(b1.entry_points(), b2.entry_points());
}

#[test]
fn any_insertion_order_keeps_the_invariants() {
    let n = 20usize;
    let storage = random_storage(3, n, 5);
    let levels: Vec<usize> = (0..n).map(|p| p % 2).collect();
    let forward: Vec<u32> = (0..n as u32).collect();
    let backward: Vec<u32> = (0..n as u32).rev().collect();
    let b1 = build(&storage, levels.clone(), 2, 4, &forward);
    let b2 = build(&storage, levels, 2, 4, &backward);
    check_invariants(&b1, n as u32, 2);
    check_invariants(&b2, n as u32, 2);
}

#[test]
fn filtered_build_links_only_admissible_points() {
    let n = 10usize;
    let storage = random_storage(3, n, 11);
    let filter: Vec<bool> = (0..n).map(|p| p % 2 == 0).collect();
    let mut builder = GraphLinearBuilder::new(vec![0; n], 2, 4, 4, 10);
    for id in (0..n as u32).step_by(2) {
        let query = storage.vectors[id as usize].clone();
        let scorer = FilteredScorer::new(&storage, query, Some(&filter));
        builder.link_new_point(id, &scorer).unwrap();
    }
    let entries = builder.entry_points();
    assert_eq!(entries.len(), 1);
    assert_eq!(entries[0].point_id % 2, 0);
    for p in 0..n as u32 {
        for neighbor in builder.neighbors(p, 0) {
            assert_eq!(neighbor % 2, 0, "odd neighbor {neighbor} of point {p}");
        }
    }
}

#[test]
fn beam_narrower_than_budget_still_satisfies_the_caps() {
    let n = 15usize;
    let storage = random_storage(3, n, 23);
    let order: Vec<u32> = (0..n as u32).collect();
    // ef_construct = 2 is below m = 4: the selector sees at most 2 candidates.
    let builder = build(&storage, vec![0; n], 4, 2, &order);
    check_invariants(&builder, n as u32, 4);
    let last = (n - 1) as u32;
    assert!(builder.neighbors(last, 0).len() <= 2);
    assert!(builder.neighbors(last, 0).len() >= 1);
}

#[test]
fn higher_point_takes_over_the_registry() {
    let storage = storage_of(2, vec![vec![1, 0], vec![0, 1]]);
    let builder = build(&storage, vec![0, 2], 4, 8, &[0, 1]);
    assert_eq!(builder.entry_points(), vec![EntryPoint { point_id: 1, level: 2 }]);
    // the prior seed still appears in the graph
    assert_eq!(builder.neighbors(1, 0), vec![0]);
    assert_eq!(builder.neighbors(0, 0), vec![1]);
}

#[test]
fn out_of_range_point_id_is_rejected() {
    let storage = storage_of(2, vec![vec![1, 0], vec![0, 1]]);
    let mut builder = GraphLinearBuilder::new(vec![0, 0], 4, 8, 8, 10);
    let scorer = FilteredScorer::new(&storage, vec![1, 0], None);
    assert_eq!(builder.link_new_point(7, &scorer), Err(HnswError::InvalidPointId));
    // the builder is untouched and still usable
    assert_eq!(builder.entry_points().len(), 0);
    insert_point(&mut builder, &storage, 0);
    assert_eq!(builder.entry_points().len(), 1);
}

#[test]
fn sealing_keeps_the_adjacency_lists_bitwise_equal() {
    let n = 12usize;
    let storage = random_storage(3, n, 31);
    let levels: Vec<usize> = (0..n).map(|p| p % 2).collect();
    let order: Vec<u32> = (0..n as u32).collect();
    let builder = build(&storage, levels, 2, 4, &order);
    let before = all_lists(&builder, n as u32);
    let entries_before = builder.entry_points();
    let graph = builder.seal();
    assert_eq!(graph.entries, entries_before);
    for p in 0..n as u32 {
        assert_eq!(graph.levels(p), before[p as usize].len());
        for l in 0..graph.levels(p) {
            assert_eq!(graph.neighbors(p, l), &before[p as usize][l]);
        }
    }
}

#[test]
fn maxsim_scores_sum_of_best_parts() {
    let mut st = MultiVectorStorage::new(2);
    st.push_multi(MultiVector { parts: vec![vec![2, 0], vec![0, 3]] });
    st.push_multi(MultiVector { parts: vec![vec![1, 1]] });
    let scorer = MetricQueryScorer::new(
        MultiVector { parts: vec![vec![1, 0], vec![0, 1]] },
        &st,
    );
    // best of {2, 0} plus best of {0, 3}
    assert_eq!(scorer.score_stored(0), 5);
    assert_eq!(scorer.score_stored(1), 2);
    assert_eq!(scorer.score(&MultiVector { parts: vec![vec![7, 7]] }), 14);
    // point 0 against point 1: max(2, ...) per part of point 0
    assert_eq!(scorer.score_internal(0, 1), 2 + 3);
    assert_eq!(scorer.score_internal(1, 0), 3);
}
