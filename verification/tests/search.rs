use tabletop_atlas::db::embeddings::{
    rank_by_score, score_key, search_backend, search_limit, select_hits, BatchAction, BatchEvent,
    BatchInsert, Hit, Neighbor, SearchBackend, CHAT_CONTEXT_LIMIT, CHAT_SIMILARITY_THRESHOLD,
    DEFAULT_SIMILARITY_THRESHOLD, MIN_NEIGHBORS, RULES_SEARCH_THRESHOLD,
};
use tabletop_atlas::models::embedding::default_search_limit;

fn key(x: f64) -> i64 {
    score_key(x.to_bits())
}

#[test]
fn score_keys_order_as_the_numbers_do() {
    let values = [
        f64::NEG_INFINITY,
        -1.0e300,
        -2.5,
        -1.0,
        -0.5,
        -1.0e-300,
        -0.0,
        0.0,
        1.0e-300,
        0.3,
        0.30000001192092896,
        0.5,
        0.75,
        1.0,
        2.5,
        1.0e300,
        f64::INFINITY,
    ];
    for a in values {
        for b in values {
            assert_eq!(a < b, key(a) < key(b), "{} {}", a, b);
            assert_eq!(a == b, key(a) == key(b), "{} {}", a, b);
            assert_eq!(a >= b, key(a) >= key(b), "{} {}", a, b);
        }
    }
}

#[test]
fn thresholds_are_the_keys_of_their_numbers() {
    assert_eq!(DEFAULT_SIMILARITY_THRESHOLD, key(0.5f32 as f64));
    assert_eq!(CHAT_SIMILARITY_THRESHOLD, key(0.3f32 as f64));
    assert_eq!(RULES_SEARCH_THRESHOLD, key(0.0));
    assert_eq!(key(-0.0), 0);
    assert_eq!(CHAT_CONTEXT_LIMIT, 5);
    assert_eq!(default_search_limit(), 10);
}

#[test]
fn search_limit_asks_for_three_times_the_results_or_fifty() {
    assert_eq!(search_limit(0), MIN_NEIGHBORS);
    assert_eq!(search_limit(5), 50);
    assert_eq!(search_limit(10), 50);
    assert_eq!(search_limit(16), 50);
    assert_eq!(search_limit(17), 51);
    assert_eq!(search_limit(100), 300);
}

fn neighbors(list: &[(i64, f64)]) -> Vec<Neighbor> {
    list.iter().map(|&(rowid, s)| Neighbor { rowid, score: key(s) }).collect()
}

#[test]
fn select_hits_keeps_the_order_of_the_index() {
    let ns = neighbors(&[(7, 0.9), (3, 0.8), (9, 0.7), (4, 0.6), (5, 0.2)]);
    let rows = [4i64, 7, 9];
    let hits = select_hits(&ns, &rows, key(0.5), 10);
    assert_eq!(
        hits,
        vec![
            Hit { neighbor: 0, row: 1 },
            Hit { neighbor: 2, row: 2 },
            Hit { neighbor: 3, row: 0 }
        ]
    );
}

#[test]
fn select_hits_stops_at_the_limit() {
    let ns = neighbors(&[(1, 0.9), (2, 0.8), (3, 0.7)]);
    let rows = [1i64, 2, 3];
    assert_eq!(select_hits(&ns, &rows, key(0.0), 2).len(), 2);
    assert_eq!(select_hits(&ns, &rows, key(0.0), 0).len(), 0);
    assert_eq!(select_hits(&ns, &rows, key(0.0), 3).len(), 3);
    assert_eq!(select_hits(&ns, &rows, key(0.0), 4).len(), 3);
}

#[test]
fn select_hits_drops_what_is_below_the_threshold() {
    let ns = neighbors(&[(1, 0.9), (2, 0.5), (3, 0.49)]);
    let rows = [1i64, 2, 3];
    let hits = select_hits(&ns, &rows, key(0.5), 10);
    assert_eq!(hits.len(), 2);
    assert_eq!(hits[1], Hit { neighbor: 1, row: 1 });
}

#[test]
fn select_hits_of_an_unknown_game_is_empty() {
    let ns = neighbors(&[(1, 0.9), (2, 0.8)]);
    assert!(select_hits(&ns, &[], key(0.0), 10).is_empty());
    assert!(select_hits(&[], &[1, 2], key(0.0), 10).is_empty());
}

#[test]
fn select_hits_takes_the_first_row_of_an_id() {
    let ns = neighbors(&[(5, 0.9)]);
    assert_eq!(select_hits(&ns, &[1, 5, 5], key(0.0), 10), vec![Hit { neighbor: 0, row: 1 }]);
}

#[test]
fn single_stored_chunk_is_found_above_one_half() {
    // one stored chunk, similarity 0.83 to the question, threshold 0.5
    let ns = neighbors(&[(1, 0.83)]);
    let hits = select_hits(&ns, &[1], DEFAULT_SIMILARITY_THRESHOLD, 10);
    assert_eq!(hits, vec![Hit { neighbor: 0, row: 0 }]);
    assert!(ns[hits[0].neighbor].score > DEFAULT_SIMILARITY_THRESHOLD);
    assert_eq!(rank_by_score(&[key(0.83)], DEFAULT_SIMILARITY_THRESHOLD, 10), vec![0]);
}

#[test]
fn rank_by_score_sorts_by_falling_score() {
    let scores: Vec<i64> = [0.1, 0.9, 0.5, 0.7, 0.3].iter().map(|&s| key(s)).collect();
    assert_eq!(rank_by_score(&scores, key(0.0), 10), vec![1, 3, 2, 4, 0]);
    assert_eq!(rank_by_score(&scores, key(0.5), 10), vec![1, 3, 2]);
    assert_eq!(rank_by_score(&scores, key(0.0), 2), vec![1, 3]);
    assert_eq!(rank_by_score(&scores, key(0.0), 0), Vec::<usize>::new());
    assert_eq!(rank_by_score(&scores, key(0.95), 10), Vec::<usize>::new());
    assert_eq!(rank_by_score(&[], key(0.0), 10), Vec::<usize>::new());
}

#[test]
fn rank_by_score_keeps_the_stored_order_of_equal_scores() {
    let scores: Vec<i64> = [0.5, 0.9, 0.5, 0.9, 0.5].iter().map(|&s| key(s)).collect();
    assert_eq!(rank_by_score(&scores, key(0.0), 10), vec![1, 3, 0, 2, 4]);
    assert_eq!(rank_by_score(&scores, key(0.0), 3), vec![1, 3, 0]);
}

#[test]
fn rank_by_score_filters_unlike_vectors_at_the_default_threshold() {
    // vectors of another length have similarity 0
    let scores = [key(0.0), key(0.8), key(0.0)];
    assert_eq!(rank_by_score(&scores, DEFAULT_SIMILARITY_THRESHOLD, 10), vec![1]);
}

fn run_batch(count: usize, fail_at: Option<usize>) -> (Vec<i64>, Option<Vec<i64>>) {
    // a store that keeps rows only once they are committed
    let mut kept: Vec<i64> = Vec::new();
    let mut pending: Vec<i64> = Vec::new();
    let mut batch = BatchInsert::new(count);
    loop {
        match batch.next_action() {
            BatchAction::Insert(i) => {
                if Some(i) == fail_at {
                    batch.record(BatchEvent::Failed);
                } else {
                    let id = 100 + i as i64;
                    pending.push(id);
                    batch.record(BatchEvent::Inserted(id));
                }
            }
            BatchAction::Commit => {
                kept.append(&mut pending);
                break;
            }
            BatchAction::Rollback => {
                pending.clear();
                break;
            }
        }
    }
    (kept, batch.into_ids())
}

#[test]
fn batch_that_fails_on_its_last_item_keeps_nothing() {
    let (kept, ids) = run_batch(5, Some(4));
    assert_eq!(kept.len(), 0);
    assert_eq!(ids, None);
}

#[test]
fn batch_that_fails_on_its_first_item_keeps_nothing() {
    let (kept, ids) = run_batch(5, Some(0));
    assert!(kept.is_empty());
    assert_eq!(ids, None);
}

#[test]
fn batch_without_failure_keeps_everything_in_order() {
    let (kept, ids) = run_batch(5, None);
    assert_eq!(kept, vec![100, 101, 102, 103, 104]);
    assert_eq!(ids, Some(vec![100, 101, 102, 103, 104]));
}

#[test]
fn empty_batch_commits_at_once() {
    let batch = BatchInsert::new(0);
    assert_eq!(batch.next_action(), BatchAction::Commit);
    assert_eq!(batch.into_ids(), Some(Vec::new()));
}

#[test]
fn batch_ignores_what_is_reported_after_its_end() {
    let mut batch = BatchInsert::new(1);
    batch.record(BatchEvent::Failed);
    batch.record(BatchEvent::Inserted(1));
    assert_eq!(batch.next_action(), BatchAction::Rollback);
    let mut done = BatchInsert::new(1);
    done.record(BatchEvent::Inserted(1));
    done.record(BatchEvent::Failed);
    done.record(BatchEvent::Inserted(2));
    assert_eq!(done.next_action(), BatchAction::Commit);
    assert_eq!(done.into_ids(), Some(vec![1]));
    let under_way = BatchInsert::new(2);
    assert_eq!(under_way.next_action(), BatchAction::Insert(0));
    assert_eq!(under_way.into_ids(), None);
}

#[test]
fn the_index_is_used_where_there_is_one() {
    assert_eq!(search_backend(true), SearchBackend::Index);
    assert_eq!(search_backend(false), SearchBackend::Scan);
}

#[test]
fn both_ways_of_searching_agree_on_sorted_neighbours() {
    // stored in this order; the index reports them by falling similarity
    let stored = [(11i64, 0.62), (12, 0.91), (13, 0.40), (14, 0.77), (15, 0.91)];
    let scores: Vec<i64> = stored.iter().map(|&(_, s)| key(s)).collect();
    let order = rank_by_score(&scores, key(0.5), 3);
    let by_scan: Vec<i64> = order.iter().map(|&at| stored[at].0).collect();

    let ns = neighbors(&[(12, 0.91), (15, 0.91), (14, 0.77), (11, 0.62), (13, 0.40)]);
    let ids: Vec<i64> = stored.iter().map(|&(id, _)| id).collect();
    let hits = select_hits(&ns, &ids, key(0.5), 3);
    let by_index: Vec<i64> = hits.iter().map(|h| ns[h.neighbor].rowid).collect();

    assert_eq!(by_scan, vec![12, 15, 14]);
    assert_eq!(by_index, by_scan);
}

#[test]
fn select_hits_puts_the_earlier_row_first_at_equal_score() {
    let ns = neighbors(&[(2, 0.8), (1, 0.8), (3, 0.9), (4, 0.8)]);
    let rows = [1i64, 2, 3, 4];
    let hits = select_hits(&ns, &rows, key(0.5), 10);
    let ids: Vec<i64> = hits.iter().map(|h| ns[h.neighbor].rowid).collect();
    assert_eq!(ids, vec![3, 1, 2, 4]);
    assert_eq!(hits[1], Hit { neighbor: 1, row: 0 });
    // the limit cuts after the results are ordered
    let two = select_hits(&ns, &rows, key(0.5), 2);
    let ids: Vec<i64> = two.iter().map(|h| ns[h.neighbor].rowid).collect();
    assert_eq!(ids, vec![3, 1]);
}

#[test]
fn select_hits_orders_what_the_index_names_out_of_order() {
    let ns = neighbors(&[(1, 0.3), (2, 0.9), (3, 0.6)]);
    let rows = [3i64, 2, 1];
    let hits = select_hits(&ns, &rows, key(0.0), 10);
    assert_eq!(
        hits,
        vec![
            Hit { neighbor: 1, row: 1 },
            Hit { neighbor: 2, row: 0 },
            Hit { neighbor: 0, row: 2 }
        ]
    );
    let best = select_hits(&ns, &rows, key(0.0), 1);
    assert_eq!(best, vec![Hit { neighbor: 1, row: 1 }]);
}

#[test]
fn both_ways_of_searching_agree_on_equal_scores() {
    // rows are numbered as they are stored
    let stored = [(21i64, 0.7), (22, 0.7), (23, 0.9), (24, 0.7)];
    let scores: Vec<i64> = stored.iter().map(|&(_, s)| key(s)).collect();
    let order = rank_by_score(&scores, key(0.5), 3);
    let by_scan: Vec<i64> = order.iter().map(|&at| stored[at].0).collect();

    // the index names rows of equal distance in an order of its own
    let ns = neighbors(&[(23, 0.9), (24, 0.7), (22, 0.7), (21, 0.7)]);
    let ids: Vec<i64> = stored.iter().map(|&(id, _)| id).collect();
    let hits = select_hits(&ns, &ids, key(0.5), 3);
    let by_index: Vec<i64> = hits.iter().map(|h| ns[h.neighbor].rowid).collect();

    assert_eq!(by_scan, vec![23, 21, 22]);
    assert_eq!(by_index, by_scan);
}
