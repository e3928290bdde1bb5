use navmap_pathfinder::diagonals::{
    expand_diagonals, expand_diagonals_checked, DiagonalHandling, DiagonalRoutes,
};
use navmap_pathfinder::directions::{EAST, NORTH, SOUTH, WEST};
use navmap_pathfinder::geometry::Coord;
use navmap_pathfinder::grid::Grid;
use navmap_pathfinder::nav_pass::{cache_nav_pass, NavPassCache, TurfInfo, BAKED_FLAG};
use navmap_pathfinder::packed_map::PackedMap;
use navmap_pathfinder::search::{JobProgress, SearchJob, SLICE_BUDGET};

const ALL: i32 = NORTH | SOUTH | EAST | WEST;

/// A map drawn with `.` for floor, `#` for walls and `,` for space; the first row is the northmost
/// one, and the south-west corner is (1, 1).
fn turf_at(map: &[&str], x: i16, y: i16) -> Option<TurfInfo> {
    let height = map.len() as i16;
    if x < 1 || y < 1 || y > height {
        return None;
    }
    let cell = |cx: i16, cy: i16| -> char {
        if cx < 1 || cy < 1 || cy > height {
            return '#';
        }
        map[(height - cy) as usize]
            .chars()
            .nth((cx - 1) as usize)
            .unwrap_or('#')
    };
    if x > map[0].len() as i16 {
        return None;
    }
    let mut open_edges = 0;
    if cell(x, y) != '#' {
        for (dir, dx, dy) in [(NORTH, 0, 1), (SOUTH, 0, -1), (EAST, 1, 0), (WEST, -1, 0)] {
            if cell(x + dx, y + dy) != '#' {
                open_edges |= dir;
            }
        }
    }
    Some(TurfInfo {
        open_edges,
        simulated: cell(x, y) != ',',
    })
}

fn grid(start: Coord) -> Grid {
    Grid {
        z: 5,
        pass_flags: 0,
        is_flying: false,
        start,
        max_range: 0,
        simulated_only: false,
        avoid: None,
        cache: PackedMap::new(),
    }
}

fn search(grid: Grid, goal: Coord, radius: i32) -> SearchJob {
    SearchJob::new(grid, goal, radius, DiagonalHandling::DoNothing, false, 0)
}

fn run(job: &mut SearchJob, map: &[&str]) -> Option<Vec<Coord>> {
    let published = NavPassCache::new();
    loop {
        assert!(job.room_left());
        match job.step(&published, 0) {
            JobProgress::Working => {}
            JobProgress::NeedsTurf(at) => job.supply(at, turf_at(map, at.0, at.1)),
            JobProgress::Found(path) => return Some(path),
            JobProgress::NoPath => return None,
            JobProgress::InProgress => unreachable!(),
        }
    }
}

fn cost(path: &[Coord]) -> u32 {
    path.windows(2)
        .map(|w| {
            if w[0].0 != w[1].0 && w[0].1 != w[1].1 {
                14
            } else {
                10
            }
        })
        .sum()
}

/// In the open the path costs what the estimate promises.
#[test]
fn open_floor_path_is_octile() {
    let map = [".....", ".....", ".....", ".....", "....."];
    let mut job = search(grid((1, 1)), (5, 3), 0);
    let path = run(&mut job, &map).unwrap();
    assert_eq!(path[0], (1, 1));
    assert_eq!(*path.last().unwrap(), (5, 3));
    assert_eq!(cost(&path), 2 * 14 + 2 * 10);
}

/// Walls make for a detour.
#[test]
fn walls_are_walked_around() {
    let map = [".....", ".###.", ".....", "....."];
    let mut job = search(grid((3, 2)), (3, 4), 0);
    let path = run(&mut job, &map).unwrap();
    assert_eq!(*path.last().unwrap(), (3, 4));
    // One step sideways, two diagonals around the end of the wall, one step back.
    assert_eq!(cost(&path), 10 + 14 + 14 + 10);
    for w in path.windows(2) {
        assert!((w[0].0 - w[1].0).abs() <= 1 && (w[0].1 - w[1].1).abs() <= 1);
    }
}

/// A target behind walls cannot be reached.
#[test]
fn enclosed_target_has_no_path() {
    let map = ["..#..", "..###", "....."];
    let mut job = search(grid((1, 1)), (5, 3), 0);
    assert!(run(&mut job, &map).is_none());
}

/// Reaching the radius is enough; the target itself may be a wall.
#[test]
fn radius_around_a_wall_is_enough() {
    let map = ["...#", "....", "...."];
    let mut job = search(grid((1, 1)), (4, 3), 1);
    let path = run(&mut job, &map).unwrap();
    assert_eq!(*path.last().unwrap(), (3, 2));
    assert_eq!(cost(&path), 24);
}

/// A start inside the radius is a path of its own.
#[test]
fn start_in_target_is_found_at_once() {
    let map = ["..", ".."];
    let mut job = search(grid((1, 1)), (2, 2), 1);
    assert_eq!(run(&mut job, &map).unwrap(), vec![(1, 1)]);
}

/// A start that does not exist leaves no path.
#[test]
fn missing_start_has_no_path() {
    let map = ["..", ".."];
    let mut job = search(grid((7, 7)), (1, 1), 0);
    assert!(run(&mut job, &map).is_none());
    // Another move finds the same.
    assert!(run(&mut job, &map).is_none());
}

/// The avoided turf is walked around, space too where only simulated turfs are allowed.
#[test]
fn avoided_turf_and_space_are_left_out() {
    let map = ["...", "...", "..."];
    let mut avoiding = search(
        Grid {
            avoid: Some((2, 2)),
            ..grid((1, 1))
        },
        (3, 3),
        0,
    );
    let path = run(&mut avoiding, &map).unwrap();
    assert!(!path.contains(&(2, 2)));
    assert_eq!(cost(&path), 34);
    let space = ["...", ".,.", "..."];
    let mut simulated = search(
        Grid {
            simulated_only: true,
            ..grid((1, 1))
        },
        (3, 3),
        0,
    );
    assert_eq!(cost(&run(&mut simulated, &space).unwrap()), 34);
    let mut any = search(grid((1, 1)), (3, 3), 0);
    assert_eq!(cost(&run(&mut any, &space).unwrap()), 28);
}

/// The range bounds the search.
#[test]
fn range_bounds_the_search() {
    let map = ["......"];
    let mut near = search(
        Grid {
            max_range: 2,
            ..grid((1, 1))
        },
        (5, 1),
        0,
    );
    assert!(run(&mut near, &map).is_none());
    let mut far = search(
        Grid {
            max_range: 4,
            ..grid((1, 1))
        },
        (5, 1),
        0,
    );
    assert_eq!(cost(&run(&mut far, &map).unwrap()), 40);
}

/// A diagonal needs an open corner.
#[test]
fn diagonal_between_two_walls_is_closed() {
    let map = ["#.", ".#"];
    let mut job = search(grid((1, 1)), (2, 2), 0);
    assert!(run(&mut job, &map).is_none());
    let one = ["..", ".#"];
    let mut job = search(grid((1, 1)), (2, 2), 0);
    assert_eq!(run(&mut job, &one).unwrap(), vec![(1, 1), (2, 2)]);
}

/// Published values save the lookup; what was looked up stays as it was.
#[test]
fn published_values_are_used_and_kept() {
    let mut published = NavPassCache::new();
    for (x, edges) in [(1, EAST), (2, WEST)] {
        cache_nav_pass(&mut published, (x, 1, 5), BAKED_FLAG | edges);
    }
    let mut job = search(grid((1, 1)), (2, 1), 0);
    let mut moves = 0;
    let path = loop {
        moves += 1;
        match job.step(&published, 0) {
            JobProgress::Working => {
                // A later invalidation does not change what the search has seen.
                if moves == 1 {
                    cache_nav_pass(&mut published, (1, 1, 5), BAKED_FLAG);
                }
            }
            JobProgress::NeedsTurf(at) => {
                assert!(at.1 != 1);
                job.supply(at, None);
            }
            JobProgress::Found(path) => break path,
            other => panic!("unexpected {:?}", other),
        }
    };
    assert_eq!(path, vec![(1, 1), (2, 1)]);
    assert_eq!(
        job.grid.lookup((1, 1)),
        Ok(Some(TurfInfo {
            open_edges: EAST,
            simulated: false
        }))
    );
    assert_eq!(job.grid.lookup((4, 4)), Err((4, 4)));
}

/// A used-up slice gives control back and the search goes on where it was.
#[test]
fn slices_yield_and_resume() {
    let map = [".....", "....."];
    let published = NavPassCache::new();
    let mut job = search(grid((1, 1)), (5, 2), 0);
    let mut yields = 0;
    let path = loop {
        // Every other look at the clock finds the slice used up.
        let elapsed = if yields % 2 == 0 { SLICE_BUDGET } else { SLICE_BUDGET - 1 };
        match job.step(&published, elapsed) {
            JobProgress::InProgress => {
                yields += 1;
                job.touch(yields);
                let resumed = job.step(&published, 0);
                if let JobProgress::Found(path) = resumed {
                    break path;
                }
            }
            JobProgress::Working => {}
            JobProgress::NeedsTurf(at) => job.supply(at, turf_at(&map, at.0, at.1)),
            JobProgress::Found(path) => break path,
            JobProgress::NoPath => unreachable!(),
        }
    };
    assert!(yields > 0);
    assert_eq!(job.last_touched, yields);
    assert_eq!(cost(&path), 14 + 30);
}

/// However often a search yields, it hands out the path of a search that never does.
#[test]
fn interrupted_search_hands_out_the_same_path() {
    let map = [".....", ".###.", "..#..", ".#...", "....."];
    let shapes = [
        DiagonalHandling::DoNothing,
        DiagonalHandling::RemoveAll,
        DiagonalHandling::RemoveClunky,
    ];
    for handling in shapes {
        for goal in [(5, 5), (3, 3), (4, 1), (2, 4)] {
            let start = || SearchJob::new(grid((1, 1)), goal, 0, handling, true, 0);
            let mut whole = start();
            let expected = run(&mut whole, &map);
            for patience in 1..4 {
                let mut job = start();
                let published = NavPassCache::new();
                let mut moves = 0;
                let mut yields = 0;
                let found = loop {
                    moves += 1;
                    let elapsed = if moves % patience == 0 { SLICE_BUDGET } else { 0 };
                    match job.step(&published, elapsed) {
                        JobProgress::InProgress => {
                            yields += 1;
                            job.touch(yields);
                            // The next slice makes at least one move.
                            moves = 0;
                            match job.step(&published, 0) {
                                JobProgress::Found(path) => break Some(path),
                                JobProgress::NoPath => break None,
                                _ => {}
                            }
                        }
                        JobProgress::Working => {}
                        JobProgress::NeedsTurf(at) => job.supply(at, turf_at(&map, at.0, at.1)),
                        JobProgress::Found(path) => break Some(path),
                        JobProgress::NoPath => break None,
                    }
                };
                assert!(patience > 1 || yields > 0);
                assert_eq!(found, expected);
                if let Some(nodes) = found {
                    assert_eq!(job.final_path(&nodes), whole.final_path(&nodes));
                }
            }
        }
    }
}

/// The final path is given in world positions, with diagonals handled and the start left out.
#[test]
fn final_path_has_the_requested_shape() {
    let map = ["..", ".#"];
    let shape = |handling, skip_first| {
        let mut job = SearchJob::new(grid((1, 1)), (2, 2), 0, handling, skip_first, 0);
        let nodes = run(&mut job, &map).unwrap();
        job.final_path(&nodes)
    };
    assert_eq!(
        shape(DiagonalHandling::DoNothing, false),
        Ok(Some(vec![(1, 1, 5), (2, 2, 5)]))
    );
    assert_eq!(
        shape(DiagonalHandling::DoNothing, true),
        Ok(Some(vec![(2, 2, 5)]))
    );
    // North first is open here, so that a clunky diagonal is none.
    assert_eq!(
        shape(DiagonalHandling::RemoveClunky, false),
        Ok(Some(vec![(1, 1, 5), (2, 2, 5)]))
    );
    assert_eq!(
        shape(DiagonalHandling::RemoveAll, false),
        Ok(Some(vec![(1, 1, 5), (1, 2, 5), (2, 2, 5)]))
    );
}

/// Where east or west first is the only way round, both modes take it.
#[test]
fn east_west_corner_is_taken_when_it_is_the_only_one() {
    let map = ["#.", ".."];
    for handling in [DiagonalHandling::RemoveAll, DiagonalHandling::RemoveClunky] {
        let mut job = SearchJob::new(grid((1, 1)), (2, 2), 0, handling, true, 0);
        let nodes = run(&mut job, &map).unwrap();
        assert_eq!(
            job.final_path(&nodes),
            Ok(Some(vec![(2, 1, 5), (2, 2, 5)]))
        );
    }
}

/// A path over turfs that were never looked up asks for the first of them.
#[test]
fn final_path_asks_for_unknown_turfs() {
    let mut job = search(grid((1, 1)), (2, 2), 0);
    let nodes = vec![(1, 1), (2, 2)];
    assert_eq!(job.final_path(&nodes), Err((1, 1)));
    job.supply((1, 1), Some(TurfInfo { open_edges: ALL, simulated: true }));
    assert_eq!(job.final_path(&nodes), Err((2, 2)));
    job.supply((2, 2), None);
    assert_eq!(
        job.final_path(&nodes),
        Ok(Some(vec![(1, 1, 5), (2, 2, 5)]))
    );
    job.diagonal_handling = DiagonalHandling::RemoveAll;
    assert_eq!(job.final_path(&nodes), Ok(None));
    assert_eq!(job.final_path(&Vec::new()), Ok(Some(Vec::new())));
}

/// Expansion stops at the first failing recheck and keeps cardinal steps as they are.
#[test]
fn checked_expansion_hands_failures_on() {
    let nodes = [(0, 0), (1, 0), (2, 1), (3, 2)];
    let failing = |from: Coord, _to: Coord| {
        if from == (2, 1) {
            Err("blocked")
        } else {
            Ok(DiagonalRoutes {
                north_south_first: true,
                east_west_first: false,
            })
        }
    };
    assert_eq!(
        expand_diagonals_checked(&nodes, DiagonalHandling::RemoveAll, failing),
        Err("blocked")
    );
    assert_eq!(
        expand_diagonals_checked(&nodes[..3], DiagonalHandling::RemoveAll, failing),
        Ok(Some(vec![(0, 0), (1, 0), (1, 1), (2, 1)]))
    );
    let neither = |_: Coord, _: Coord| DiagonalRoutes {
        north_south_first: false,
        east_west_first: false,
    };
    assert_eq!(
        expand_diagonals(&nodes, DiagonalHandling::RemoveAll, neither),
        None
    );
    assert_eq!(
        expand_diagonals(&nodes, DiagonalHandling::DoNothing, neither),
        Some(nodes.to_vec())
    );
    assert_eq!(
        expand_diagonals(&[], DiagonalHandling::RemoveAll, neither),
        Some(Vec::new())
    );
}

/// Numeric modes; anything unknown preserves diagonals.
#[test]
fn diagonal_modes_are_numbered() {
    assert_eq!(
        DiagonalHandling::from_byond(Some(1)),
        DiagonalHandling::RemoveAll
    );
    assert_eq!(
        DiagonalHandling::from_byond(Some(2)),
        DiagonalHandling::RemoveClunky
    );
    for mode in [None, Some(0), Some(3), Some(-1)] {
        assert_eq!(
            DiagonalHandling::from_byond(mode),
            DiagonalHandling::DoNothing
        );
    }
}

/// A search at the edge of the coordinates tells that it has no room.
#[test]
fn room_runs_out_at_the_edge() {
    let open = Some(TurfInfo { open_edges: ALL, simulated: true });
    let published = NavPassCache::new();
    // Nothing is computed before the start is known to be a turf.
    let mut far = search(grid((i16::MIN, 0)), (i16::MAX, 0), 0);
    assert!(far.room_left());
    far.supply((i16::MIN, 0), open);
    assert!(!far.room_left());
    let mut nowhere = search(grid((i16::MIN, 0)), (i16::MAX, 0), 0);
    nowhere.supply((i16::MIN, 0), None);
    assert!(nowhere.room_left());
    assert!(matches!(nowhere.step(&published, 0), JobProgress::NoPath));
    let mut edge = search(grid((i16::MAX, 5)), (i16::MAX - 3, 5), 0);
    assert!(edge.room_left());
    edge.supply((i16::MAX, 5), open);
    let _ = edge.step(&published, 0);
    let _ = edge.step(&published, 0);
    assert!(!edge.room_left());
}

/// Positions that cannot be compared with the start do not matter behind closed edges.
#[test]
fn closed_edges_need_no_room() {
    // One step further west the distance to the start takes more than sixteen bits.
    let from = (-0x4000, 0);
    let wide = |open_edges: i32| {
        let mut grid = grid((0x4000, 0));
        grid.max_range = i32::MAX;
        grid.cache.insert(from, Some(TurfInfo { open_edges, simulated: true }));
        grid
    };
    assert!(!wide(ALL).has_room_at(from));
    assert!(!wide(WEST).has_room_at(from));
    // North and south of the turf the diagonals to the west are looked at, too.
    assert!(!wide(NORTH).has_room_at(from));
    let mut closed = wide(0);
    assert!(closed.has_room_at(from));
    assert_eq!(closed.successors(from), Ok(vec![]));
    closed.max_range = 0;
    assert!(closed.has_room_at(from));
    // To the east alone, the diagonals lead north-east and south-east.
    let eastward = wide(EAST);
    assert!(eastward.has_room_at(from));
    assert_eq!(eastward.successors(from), Err((from.0 + 1, 0)));
}

/// The way back needs recorded predecessors that come to an end, and nothing else.
#[test]
fn reconstruction_follows_any_chain() {
    let mut job = search(grid((1, 1)), (9, 9), 0);
    assert_eq!(job.reconstruct((4, 4)), vec![(4, 4)]);
    job.previous.insert((4, 4), (3, 9));
    job.previous.insert((3, 9), (7, 7));
    assert_eq!(job.reconstruct((4, 4)), vec![(7, 7), (3, 9), (4, 4)]);
}
