use navmap_pathfinder::diagonals::{
    apply_skip_first, expand_diagonals, DiagonalHandling, DiagonalRoutes,
};
use navmap_pathfinder::directions::{reverse_dir, step_at, NORTH, STEP_COUNT};
use navmap_pathfinder::frontier::Frontier;
use navmap_pathfinder::geometry::{
    chebyshev_distance, coordinate_allowed, heuristic_to_target_range, relaxed_distance,
    turf_allowed, LayeredNode,
};
use navmap_pathfinder::grid::Grid;
use navmap_pathfinder::nav_pass::{
    cache_nav_pass, cached_nav_pass, NavPassCache, BAKED_FLAG, SIMULATED_FLAG,
};
use navmap_pathfinder::packed_map::PackedMap;
use navmap_pathfinder::queue::{LayeredQueueEntry, QueueEntry, RelaxedQueueEntry};
use navmap_pathfinder::registry::{prune_expired_jobs, IDLE_TIMEOUT};
use navmap_pathfinder::search::SearchJob;
use std::cmp::Ordering;
use std::collections::HashMap;

/// Packed cache values survive invalidation updates.
#[test]
fn cache_retains_simulated_invalidations() {
    let mut cache = NavPassCache::new();
    let coords = (i16::MIN, i16::MIN, i16::MIN);
    cache_nav_pass(&mut cache, coords, BAKED_FLAG | SIMULATED_FLAG | NORTH);
    assert_eq!(
        cached_nav_pass(&cache, coords),
        Some(BAKED_FLAG | SIMULATED_FLAG | NORTH)
    );
    cache_nav_pass(&mut cache, coords, 0);
    assert_eq!(cached_nav_pass(&cache, coords), Some(0));
}

/// Range, space, and avoidance helpers reject invalid targets.
#[test]
fn option_helpers_cover_target_range_space_and_avoidance() {
    assert!(chebyshev_distance((7, 7), (10, 10)) <= 3);
    assert!(!turf_allowed(true, false));
    assert!(turf_allowed(false, false));
    assert!(!coordinate_allowed((12, 12), (10, 10), 2, Some((12, 12))));
    assert!(!coordinate_allowed((13, 10), (10, 10), 2, None));
}

/// Diagonal expansion preserves each requested output mode.
#[test]
fn path_shape_and_diagonal_modes_are_preserved() {
    let path = [(0, 0), (1, 1)];
    let both_routes = |_, _| DiagonalRoutes {
        north_south_first: true,
        east_west_first: true,
    };
    assert_eq!(
        expand_diagonals(&path, DiagonalHandling::RemoveAll, both_routes),
        Some(vec![(0, 0), (0, 1), (1, 1)])
    );
    let east_west_only = |_, _| DiagonalRoutes {
        north_south_first: false,
        east_west_first: true,
    };
    assert_eq!(
        expand_diagonals(&path, DiagonalHandling::RemoveClunky, east_west_only),
        Some(vec![(0, 0), (1, 0), (1, 1)])
    );
    assert_eq!(
        expand_diagonals(&path, DiagonalHandling::RemoveClunky, both_routes),
        Some(vec![(0, 0), (1, 1)])
    );
    assert_eq!(apply_skip_first(vec![(0, 0), (1, 0)], true), vec![(1, 0)]);
}

/// Queue ordering prefers the lowest estimated cost.
#[test]
fn queue_prefers_lowest_estimate() {
    let mut queue = Frontier::new();
    queue.push(QueueEntry {
        coord: (0, 0),
        cost: 10,
        estimate: 20,
        sequence: 1,
    });
    queue.push(QueueEntry {
        coord: (1, 0),
        cost: 5,
        estimate: 10,
        sequence: 2,
    });
    assert_eq!(queue.pop().unwrap().coord, (1, 0));
}

/// Creates a small job fixture with a chosen activity time.
fn test_job(last_touched: u128) -> SearchJob {
    let mut job = SearchJob::new(
        Grid {
            z: 1,
            pass_flags: 0,
            is_flying: false,
            start: (1, 1),
            max_range: 0,
            simulated_only: false,
            avoid: None,
            cache: PackedMap::new(),
        },
        (2, 2),
        0,
        DiagonalHandling::DoNothing,
        true,
        last_touched,
    );
    job.last_touched = last_touched;
    job
}

/// Job pruning removes stale entries but keeps active ones.
#[test]
fn job_registry_prunes_expired_jobs_without_affecting_active_jobs() {
    let millisecond: u128 = 1_000_000;
    let now: u128 = 1_000_000_000_000;
    let mut jobs = HashMap::from([
        (1, test_job(now - IDLE_TIMEOUT - millisecond)),
        (2, test_job(now)),
        (3, test_job(now)),
    ]);
    prune_expired_jobs(&mut jobs, now);
    assert!(!jobs.contains_key(&1));
    assert!(jobs.contains_key(&2));
    assert!(jobs.contains_key(&3));
}

/// A job expires exactly when it has been idle for the whole timeout.
#[test]
fn job_expires_at_the_timeout_and_not_before() {
    let now: u128 = 100_000_000_000;
    let mut jobs = HashMap::from([
        (1, test_job(now - IDLE_TIMEOUT)),
        (2, test_job(now - IDLE_TIMEOUT + 1)),
        (3, test_job(now + 5)),
    ]);
    prune_expired_jobs(&mut jobs, now);
    assert!(!jobs.contains_key(&1));
    assert!(jobs.contains_key(&2));
    assert!(jobs.contains_key(&3));
    assert_eq!(jobs.len(), 2);
}

/// Entries leave in the order of estimate, cost and sequence.
#[test]
fn frontier_hands_out_every_entry_in_order() {
    let mut queue = Frontier::new();
    let numbers = [7u32, 3, 9, 3, 1, 8, 2, 2, 6, 5];
    for (i, n) in numbers.iter().enumerate() {
        queue.push(QueueEntry {
            coord: (i as i16, 0),
            cost: 10 - *n,
            estimate: *n,
            sequence: i as u64,
        });
    }
    let mut out = Vec::new();
    while let Some(entry) = queue.pop() {
        out.push((entry.estimate, entry.sequence));
    }
    assert_eq!(
        out,
        vec![
            (1, 4),
            (2, 6),
            (2, 7),
            (3, 1),
            (3, 3),
            (5, 9),
            (6, 8),
            (7, 0),
            (8, 5),
            (9, 2)
        ]
    );
}

/// The greater entry is the one to take out first.
#[test]
fn queue_order_is_reversed() {
    let low = QueueEntry {
        coord: (0, 0),
        cost: 4,
        estimate: 10,
        sequence: 1,
    };
    let high = QueueEntry {
        coord: (0, 0),
        cost: 5,
        estimate: 10,
        sequence: 0,
    };
    assert_eq!(low.cmp(&high), Ordering::Greater);
    assert_eq!(high.cmp(&low), Ordering::Less);
    assert_eq!(low.cmp(&low), Ordering::Equal);
    let node = LayeredNode {
        group: 0,
        layer: 0,
        x: 0,
        y: 0,
    };
    let near = RelaxedQueueEntry {
        node,
        cost: 3,
        sequence: 9,
    };
    let far = RelaxedQueueEntry {
        node,
        cost: 4,
        sequence: 1,
    };
    assert_eq!(near.cmp(&far), Ordering::Greater);
    let first = LayeredQueueEntry {
        node,
        cost: 3,
        estimate: 3,
        sequence: 1,
    };
    let second = LayeredQueueEntry {
        node,
        cost: 3,
        estimate: 3,
        sequence: 2,
    };
    assert_eq!(first.cmp(&second), Ordering::Greater);
    // The partial comparison is the total one.
    assert_eq!(low.partial_cmp(&high), Some(Ordering::Greater));
    assert_eq!(high.partial_cmp(&low), Some(Ordering::Less));
    assert_eq!(low.partial_cmp(&low), Some(Ordering::Equal));
    assert_eq!(near.partial_cmp(&far), Some(Ordering::Greater));
    assert_eq!(second.partial_cmp(&first), Some(Ordering::Less));
    assert!(high < low && far < near && second < first);
}

/// Opposite directions come in pairs; anything else stays.
#[test]
fn directions_reverse_in_pairs() {
    for (dir, back) in [(1, 2), (4, 8), (16, 32)] {
        assert_eq!(reverse_dir(dir), back);
        assert_eq!(reverse_dir(back), dir);
    }
    assert_eq!(reverse_dir(5), 5);
    assert_eq!(reverse_dir(0), 0);
}

/// The eight steps carry the bits, displacements and costs that belong together.
#[test]
fn steps_are_cardinal_then_diagonal() {
    let steps: Vec<(i32, i16, i16, u32)> = (0..STEP_COUNT)
        .map(|k| {
            let s = step_at(k);
            (s.dir, s.dx, s.dy, s.cost)
        })
        .collect();
    assert_eq!(
        steps,
        vec![
            (1, 0, 1, 10),
            (2, 0, -1, 10),
            (4, 1, 0, 10),
            (8, -1, 0, 10),
            (5, 1, 1, 14),
            (6, 1, -1, 14),
            (9, -1, 1, 14),
            (10, -1, -1, 14)
        ]
    );
}

/// Octile estimates combine diagonal and straight steps outside the radius.
#[test]
fn estimates_have_exact_values() {
    assert_eq!(chebyshev_distance((0, 0), (3, -7)), 7);
    assert_eq!(heuristic_to_target_range((0, 0), (3, 5), 0), 3 * 14 + 2 * 10);
    assert_eq!(heuristic_to_target_range((0, 0), (3, 5), 2), 14 + 2 * 10);
    assert_eq!(heuristic_to_target_range((0, 0), (3, 5), 5), 0);
    let from = LayeredNode {
        group: 4,
        layer: 1,
        x: 0,
        y: 0,
    };
    let to = LayeredNode {
        group: 4,
        layer: 3,
        x: 2,
        y: 2,
    };
    assert_eq!(relaxed_distance(from, to, 0, true), Some(28 + 20));
    assert_eq!(relaxed_distance(from, to, 0, false), None);
    assert_eq!(
        relaxed_distance(from, LayeredNode { group: 5, ..to }, 0, true),
        None
    );
    assert_eq!(
        relaxed_distance(from, LayeredNode { layer: 1, ..to }, 1, false),
        Some(14)
    );
}
