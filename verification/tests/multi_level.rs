use navmap_pathfinder::diagonals::{DiagonalHandling, DiagonalRoutes};
use navmap_pathfinder::directions::{DOWN, EAST, NORTH, SOUTH, UP, WEST};
use navmap_pathfinder::geometry::{LayeredNode, TurfCoords};
use navmap_pathfinder::layered_grid::{LayeredAction, Request};
use navmap_pathfinder::multi_search::{LayeredPath, MultiJobProgress, MultiSearchJob};
use navmap_pathfinder::nav_pass::{
    cache_nav_pass, NavPassCache, TurfInfo, BAKED_FLAG, VERTICAL_SHIFT,
};
use navmap_pathfinder::portal::{portals_measurable, PortalHeuristic};
use navmap_pathfinder::request::{new_multi_search_job, AvoidTurf, Operand, PathRequest};
use navmap_pathfinder::search::SLICE_BUDGET;
use navmap_pathfinder::topology::{
    list_links, node_for_xyz, replace_links, state_counts, topology_generation, NavLink, StateCounts,
    Topology,
};
use std::collections::HashMap;

const ALL: i32 = NORTH | SOUTH | EAST | WEST;
const YES: Operand = Operand::Other;
const NO: Operand = Operand::Null;

/// Two layers of group 1 on z 1 and 2, one layer of group 2 on z 3.
fn topology() -> Topology {
    Topology::new(7, &vec![(1, 0, 1), (1, 1, 2), (2, 0, 3)])
}

fn node(group: i32, layer: i16, x: i16, y: i16) -> LayeredNode {
    LayeredNode { group, layer, x, y }
}

fn request(start: TurfCoords, end: TurfCoords) -> PathRequest {
    PathRequest {
        start: Some(start),
        end: Some(end),
        pass_flags: None,
        is_flying: NO,
        max_range: None,
        min_target_distance: None,
        simulated_only: NO,
        avoid: AvoidTurf::Nothing,
        diagonal_handling: None,
        skip_first: NO,
        max_path_cost: None,
    }
}

/// A five by five floor on every level, with open verticals in one column.
fn turf_at(topology: &Topology, at: LayeredNode) -> Option<TurfInfo> {
    assert!(topology.layer_to_z.get((at.group, at.layer)).is_some());
    if at.x < 1 || at.x > 5 || at.y < 1 || at.y > 5 {
        return None;
    }
    let mut open_edges = ALL;
    if at.x == 5 && at.y == 5 {
        open_edges |= (UP | DOWN) << VERTICAL_SHIFT;
    }
    Some(TurfInfo {
        open_edges,
        simulated: true,
    })
}

fn job_for(request: &PathRequest, links: &Vec<NavLink>) -> MultiSearchJob {
    let topology = topology();
    assert!(request.multi_room_left(&topology, links));
    new_multi_search_job(request, &topology, links, 0)
        .unwrap()
        .unwrap()
}

fn run(job: &mut MultiSearchJob, may_plan: &dyn Fn(u64) -> bool) -> Option<LayeredNode> {
    let published = NavPassCache::new();
    let topology = topology();
    loop {
        assert!(job.room_left());
        match job.step(&published, 0) {
            MultiJobProgress::Working => {}
            MultiJobProgress::NeedsTurf(at) => job.supply(at, turf_at(&topology, at)),
            MultiJobProgress::NeedsLink(id) => job.answer(may_plan(id)),
            MultiJobProgress::Found(end) => return Some(end),
            MultiJobProgress::NoPath => return None,
            MultiJobProgress::InProgress | MultiJobProgress::Stale => unreachable!(),
        }
    }
}

fn path_of(job: &MultiSearchJob, end: LayeredNode) -> LayeredPath {
    job.final_path(end).unwrap().unwrap()
}

fn cost_of(path: &LayeredPath, links: &[NavLink]) -> u32 {
    let mut sum = 0;
    for i in 1..path.turfs.len() {
        sum += match path.actions[i] {
            LayeredAction::Vertical(_) => 10,
            LayeredAction::Link(id) => links.iter().find(|l| l.id == id).unwrap().cost,
            LayeredAction::Plain => {
                let (a, b) = (path.turfs[i - 1], path.turfs[i]);
                if a.0 != b.0 && a.1 != b.1 {
                    14
                } else {
                    10
                }
            }
        };
    }
    sum
}

/// Positions and nodes lead to each other.
#[test]
fn topology_maps_both_ways() {
    let topology = topology();
    assert_eq!(topology_generation(&topology), 7);
    assert_eq!(node_for_xyz(&topology, 4, 5, 2), Some(node(1, 1, 4, 5)));
    assert_eq!(node_for_xyz(&topology, 4, 5, 9), None);
    let job = job_for(&request((1, 1, 1), (2, 2, 1)), &vec![]);
    assert_eq!(job.grid.z_for(node(2, 0, 8, 8)), Some(3));
    assert_eq!(job.grid.z_for(node(2, 1, 8, 8)), None);
}

/// A later record wins, in both directions.
#[test]
fn later_topology_records_win() {
    let topology = Topology::new(1, &vec![(1, 0, 4), (2, 5, 4), (2, 5, 6)]);
    assert_eq!(node_for_xyz(&topology, 0, 0, 4), Some(node(2, 5, 0, 0)));
    assert_eq!(topology.layer_to_z.get((2, 5)), Some(&6));
    assert_eq!(topology.layer_to_z.get((1, 0)), Some(&4));
    let registry = HashMap::new();
    assert_eq!(
        state_counts(&topology, &registry),
        StateCounts {
            generation: 1,
            z_count: 2,
            layer_count: 2,
            link_count: 0
        }
    );
}

/// Replacing links forgets the old ones; of two with one identifier the later stays.
#[test]
fn links_are_replaced_as_a_whole() {
    let mut registry = HashMap::new();
    replace_links(&mut registry, &vec![NavLink::new(9, (1, 1, 1), (2, 2, 2), 5)]);
    let links = vec![
        NavLink::new(1, (1, 1, 1), (2, 2, 2), 0),
        NavLink::new(2, (1, 1, 1), (3, 3, 3), 4),
        NavLink::new(1, (4, 4, 1), (5, 5, 2), 30),
    ];
    replace_links(&mut registry, &links);
    let mut listed = list_links(&registry);
    listed.sort_by_key(|link| link.id);
    assert_eq!(listed, vec![links[2], links[1]]);
    assert_eq!(state_counts(&topology(), &registry).link_count, 2);
    // Taking a link costs at least one.
    assert_eq!(links[0].cost, 1);
    assert_eq!(links[1].cost, 4);
}

/// The estimate is the least of the straight way and the ways by link sources.
#[test]
fn portal_estimates_have_exact_values() {
    let links = vec![
        NavLink::new(1, (1, 1, 1), (1, 1, 2), 25),
        NavLink::new(2, (2, 2, 2), (5, 5, 3), 3),
        NavLink::new(3, (1, 1, 9), (1, 1, 3), 1),
    ];
    let topology = topology();
    let goal = node(2, 0, 5, 1);
    assert!(portals_measurable(&topology, goal, 0, false, &links));
    let heuristic = PortalHeuristic::new(&topology, goal, 0, false, &links);
    // From the second link's far end four straight steps are left.
    let second = 3 + 40;
    let first = 25 + 14 + second;
    assert_eq!(
        heuristic.source_distances,
        vec![(node(1, 0, 1, 1), first), (node(1, 1, 2, 2), second)]
    );
    // On the goal's own level the straight way counts.
    assert_eq!(heuristic.estimate(node(2, 0, 3, 3)), 28);
    assert_eq!(heuristic.estimate(goal), 0);
    // Elsewhere there is no straight way, and nothing is promised.
    assert_eq!(heuristic.estimate(node(1, 0, 3, 3)), 0);
}

/// A link that shortens the way on the goal's own level lowers the estimate.
#[test]
fn shortcut_lowers_the_estimate() {
    let links = vec![NavLink::new(4, (10, 10, 1), (90, 10, 1), 7)];
    let heuristic = PortalHeuristic::new(&topology(), node(1, 0, 91, 10), 0, false, &links);
    assert_eq!(heuristic.source_distances, vec![(node(1, 0, 10, 10), 17)]);
    assert_eq!(heuristic.estimate(node(1, 0, 11, 10)), 27);
    assert_eq!(heuristic.estimate(node(1, 0, 85, 10)), 60);
}

/// A flying mover's layers count as straight steps; the radius is taken off at the end.
#[test]
fn flying_estimate_counts_layers() {
    let heuristic = PortalHeuristic::new(&topology(), node(1, 0, 5, 5), 2, true, &[]);
    assert_eq!(heuristic.estimate(node(1, 1, 1, 5)), 20 + 10);
    assert_eq!(heuristic.estimate(node(1, 1, 4, 4)), 10);
    assert_eq!(heuristic.estimate(node(2, 0, 1, 5)), 0);
}

/// On one level the multi-level search finds what the single-level one does.
#[test]
fn same_level_path_is_octile() {
    let mut job = job_for(&request((1, 1, 1), (5, 3, 1)), &vec![]);
    let end = run(&mut job, &|_| true).unwrap();
    let path = path_of(&job, end);
    assert_eq!(cost_of(&path, &[]), 48);
    assert!(path.actions.iter().all(|a| *a == LayeredAction::Plain));
    assert_eq!(path.turfs.len(), path.actions.len());
}

/// A walker cannot change layers; a flyer goes by the open column.
#[test]
fn verticals_are_for_flyers() {
    let mut walker = job_for(&request((1, 1, 1), (1, 1, 2)), &vec![]);
    assert!(run(&mut walker, &|_| true).is_none());
    let mut flyer = job_for(
        &PathRequest {
            is_flying: YES,
            ..request((4, 4, 1), (5, 4, 2))
        },
        &vec![],
    );
    let end = run(&mut flyer, &|_| true).unwrap();
    let path = path_of(&flyer, end);
    assert_eq!(
        path.turfs,
        vec![(4, 4, 1), (5, 5, 1), (5, 5, 2), (5, 4, 2)]
    );
    assert_eq!(
        path.actions,
        vec![
            LayeredAction::Plain,
            LayeredAction::Plain,
            LayeredAction::Vertical(UP),
            LayeredAction::Plain
        ]
    );
}

/// The cheaper of two links is taken, unless the mover may not plan it.
#[test]
fn links_join_levels_where_they_may_be_planned() {
    let links = vec![
        NavLink::new(1, (2, 1, 1), (2, 1, 3), 100),
        NavLink::new(2, (3, 1, 1), (3, 1, 3), 20),
    ];
    let ask = request((1, 1, 1), (3, 3, 3));
    let mut job = job_for(&ask, &links);
    let end = run(&mut job, &|_| true).unwrap();
    let path = path_of(&job, end);
    assert_eq!(cost_of(&path, &links), 20 + 20 + 20);
    assert!(path.actions.contains(&LayeredAction::Link(2)));
    let mut job = job_for(&ask, &links);
    let end = run(&mut job, &|id| id != 2).unwrap();
    let path = path_of(&job, end);
    assert_eq!(cost_of(&path, &links), 10 + 100 + 24);
    assert!(path.actions.contains(&LayeredAction::Link(1)));
    let mut job = job_for(&ask, &links);
    assert!(run(&mut job, &|_| false).is_none());
}

/// A way that costs more than the limit is no way.
#[test]
fn cost_limit_prunes() {
    let limited = |max_path_cost| {
        let mut job = job_for(
            &PathRequest {
                max_path_cost,
                ..request((1, 1, 1), (4, 1, 1))
            },
            &vec![],
        );
        run(&mut job, &|_| true)
    };
    assert!(limited(Some(29)).is_none());
    assert_eq!(limited(Some(30)), Some(node(1, 0, 4, 1)));
    assert_eq!(limited(Some(0)), Some(node(1, 0, 4, 1)));
    assert_eq!(limited(None), Some(node(1, 0, 4, 1)));
}

/// Saturated costs still lead to a path that can be traced back.
#[test]
fn saturated_costs_keep_the_way_back() {
    let links = vec![
        NavLink::new(1, (1, 1, 1), (1, 1, 2), u32::MAX),
        NavLink::new(2, (1, 1, 2), (1, 1, 3), u32::MAX),
    ];
    let mut job = job_for(&request((1, 1, 1), (1, 2, 3)), &links);
    let end = run(&mut job, &|_| true).unwrap();
    let path = path_of(&job, end);
    assert_eq!(path.turfs[0], (1, 1, 1));
    assert_eq!(*path.turfs.last().unwrap(), (1, 2, 3));
    let (nodes, actions) = job.reconstruct(end);
    assert_eq!(nodes.len(), actions.len());
    assert_eq!(actions[0], LayeredAction::Plain);
}

/// The target radius counts on the goal's own level only.
#[test]
fn radius_counts_on_the_goals_level() {
    let mut job = job_for(
        &PathRequest {
            min_target_distance: Some(3),
            ..request((1, 1, 1), (1, 1, 2))
        },
        &vec![],
    );
    assert!(run(&mut job, &|_| true).is_none());
    let mut job = job_for(
        &PathRequest {
            min_target_distance: Some(3),
            ..request((1, 1, 1), (5, 1, 1))
        },
        &vec![],
    );
    assert_eq!(run(&mut job, &|_| true), Some(node(1, 0, 2, 1)));
}

/// Range and avoidance hold on every level.
#[test]
fn range_and_avoidance_hold_across_levels() {
    let links = vec![NavLink::new(1, (1, 1, 1), (5, 5, 3), 1)];
    let mut job = job_for(
        &PathRequest {
            max_range: Some(3),
            ..request((1, 1, 1), (5, 5, 3))
        },
        &links,
    );
    assert!(run(&mut job, &|_| panic!("the destination is out of range")).is_none());
    let mut job = job_for(
        &PathRequest {
            avoid: AvoidTurf::Turf(Some((5, 5, 3))),
            min_target_distance: Some(1),
            ..request((1, 1, 1), (5, 5, 3))
        },
        &links,
    );
    assert!(run(&mut job, &|_| true).is_none());
}

/// A changed topology ends the search when a slice begins.
#[test]
fn changed_topology_is_stale() {
    let mut job = job_for(&request((1, 1, 1), (5, 1, 1)), &vec![]);
    assert_eq!(job.begin_slice(&topology(), 11), MultiJobProgress::Working);
    assert_eq!(job.last_touched, 11);
    let other = Topology::new(8, &vec![]);
    assert_eq!(job.begin_slice(&other, 12), MultiJobProgress::Stale);
    assert_eq!(job.last_touched, 12);
}

/// A used-up slice changes nothing, and links are asked about anew for each node.
#[test]
fn multi_level_slices_yield_and_resume() {
    let links = vec![NavLink::new(1, (1, 1, 1), (1, 1, 3), 10)];
    let mut job = job_for(&request((1, 1, 1), (2, 1, 3)), &links);
    let published = NavPassCache::new();
    let topology = topology();
    let mut asked = Vec::new();
    let mut yields = 0;
    let end = loop {
        match job.step(&published, SLICE_BUDGET) {
            MultiJobProgress::InProgress => {
                yields += 1;
                match job.step(&published, SLICE_BUDGET - 1) {
                    MultiJobProgress::Found(end) => break end,
                    MultiJobProgress::Working => {}
                    other => panic!("unexpected {:?}", other),
                }
            }
            MultiJobProgress::Working => {}
            MultiJobProgress::NeedsTurf(at) => job.supply(at, turf_at(&topology, at)),
            MultiJobProgress::NeedsLink(id) => {
                asked.push(id);
                job.answer(true);
            }
            other => panic!("unexpected {:?}", other),
        }
    };
    assert_eq!(end, node(2, 0, 2, 1));
    assert_eq!(asked, vec![1]);
    assert!(yields > 1);
}

/// However often a search across levels yields, it hands out the path of one that never does.
#[test]
fn interrupted_multi_level_search_hands_out_the_same_path() {
    let links = vec![
        NavLink::new(1, (2, 1, 1), (2, 1, 3), 100),
        NavLink::new(2, (3, 1, 1), (3, 1, 3), 20),
    ];
    let published = NavPassCache::new();
    let topology = topology();
    for goal in [(3, 3, 3), (5, 2, 1), (1, 4, 2)] {
        let ask = request((1, 1, 1), goal);
        for refused in 1..4 {
            let mut whole = job_for(&ask, &links);
            let expected = run(&mut whole, &|id| id != refused);
            let mut job = job_for(&ask, &links);
            let mut yields = 0;
            let mut elapsed = SLICE_BUDGET;
            let found = loop {
                let progress = job.step(&published, elapsed);
                elapsed = SLICE_BUDGET;
                match progress {
                    MultiJobProgress::InProgress => {
                        yields += 1;
                        assert_eq!(
                            job.begin_slice(&topology, yields),
                            MultiJobProgress::Working
                        );
                        elapsed = 0;
                    }
                    MultiJobProgress::Working => {}
                    MultiJobProgress::NeedsTurf(at) => job.supply(at, turf_at(&topology, at)),
                    MultiJobProgress::NeedsLink(id) => job.answer(id != refused),
                    MultiJobProgress::Found(end) => break Some(end),
                    MultiJobProgress::NoPath => break None,
                    MultiJobProgress::Stale => unreachable!(),
                }
            };
            assert!(yields > 0);
            assert_eq!(found, expected);
            if let Some(end) = found {
                let path = path_of(&job, end);
                let other = path_of(&whole, end);
                assert_eq!(path.turfs, other.turfs);
                assert_eq!(path.actions, other.actions);
            }
        }
    }
}

/// A node whose layer has no z-level has no turf, and is looked up once like any other.
#[test]
fn layers_without_a_level_are_looked_up_once() {
    let published = NavPassCache::new();
    let mut job = job_for(
        &PathRequest { is_flying: YES, ..request((5, 5, 2), (1, 1, 1)) },
        &vec![],
    );
    let above = node(1, 2, 5, 5);
    assert_eq!(job.grid.lookup(above), Err(Request::Turf(above)));
    assert_eq!(job.grid.cached_info(&published, above), Some(None));
    let end = run(&mut job, &|_| true).unwrap();
    assert_eq!(end, node(1, 0, 1, 1));
    assert_eq!(job.grid.cache.get(above), Some(&None));
    assert_eq!(job.grid.lookup(above), Ok(None));
    // What was looked up first stays.
    job.grid.remember(above, Some(TurfInfo { open_edges: ALL, simulated: true }));
    assert_eq!(job.grid.lookup(above), Ok(None));
}

/// Nothing is computed behind closed edges, nor of layers that no open edge leads to.
#[test]
fn closed_layered_edges_need_no_room() {
    let mut job = job_for(
        &PathRequest { is_flying: YES, ..request((1, 1, 1), (2, 2, 1)) },
        &vec![],
    );
    let top = LayeredNode { layer: i16::MAX, ..node(1, 0, 3, 3) };
    let bottom = LayeredNode { layer: i16::MIN, ..node(1, 0, 3, 3) };
    for at in [top, bottom] {
        // A turf that is not known yet has no edges to look through.
        assert!(job.grid.has_room_at(at));
    }
    job.grid.remember(
        top,
        Some(TurfInfo { open_edges: DOWN << VERTICAL_SHIFT, simulated: true }),
    );
    assert!(job.grid.has_room_at(top));
    let below = LayeredNode { layer: i16::MAX - 1, ..top };
    assert_eq!(job.grid.successors(top, &vec![]), Err(Request::Turf(below)));
    job.grid.remember(
        bottom,
        Some(TurfInfo { open_edges: DOWN << VERTICAL_SHIFT, simulated: true }),
    );
    assert!(!job.grid.has_room_at(bottom));
    let corner = node(1, 0, i16::MAX, 7);
    job.grid.remember(corner, Some(TurfInfo { open_edges: 0, simulated: true }));
    assert!(!job.grid.has_room_at(corner));
    job.grid.remember(node(1, 0, i16::MAX - 1, 7), None);
    assert!(job.grid.has_room_at(node(1, 0, i16::MAX - 1, 7)));
}

/// The way back needs recorded predecessors that come to an end, and nothing else.
#[test]
fn layered_reconstruction_follows_any_chain() {
    let mut job = job_for(&request((1, 1, 1), (2, 2, 1)), &vec![]);
    let (a, b) = (node(1, 0, 4, 4), node(2, 0, 9, 9));
    job.previous.insert(a, (b, LayeredAction::Link(3)));
    assert_eq!(
        job.reconstruct(a),
        (vec![b, a], vec![LayeredAction::Plain, LayeredAction::Link(3)])
    );
}

/// On the goal's own level the estimate is zero inside the target radius only, if links cost
/// something.
#[test]
fn estimate_is_positive_outside_the_target() {
    let topology = topology();
    let goal = node(1, 0, 3, 3);
    let near_target = |cost: u32| vec![NavLink::new(1, (1, 1, 1), (3, 3, 1), cost)];
    let estimate = |links: Vec<NavLink>, at: LayeredNode| {
        PortalHeuristic::new(&topology, goal, 1, false, &links).estimate(at)
    };
    for x in 1..6 {
        for y in 1..6 {
            let outside = (x - 3i16).abs() > 1 || (y - 3i16).abs() > 1;
            assert_eq!(estimate(near_target(1), node(1, 0, x, y)) > 0, outside);
        }
    }
    assert_eq!(estimate(near_target(1), node(1, 0, 1, 1)), 1);
    // A new link costs at least one.
    assert_eq!(estimate(near_target(0), node(1, 0, 1, 1)), 1);
    let free = vec![NavLink { cost: 0, ..near_target(1)[0] }];
    assert_eq!(estimate(free, node(1, 0, 1, 1)), 0);
}

/// Published values are read at the z-level of the node's layer.
#[test]
fn published_values_settle_layered_turfs() {
    let mut published = NavPassCache::new();
    for (x, edges) in [(1, EAST), (2, WEST)] {
        cache_nav_pass(&mut published, (x, 1, 2), BAKED_FLAG | edges);
    }
    let mut job = job_for(&request((1, 1, 2), (2, 1, 2)), &vec![]);
    let end = loop {
        match job.step(&published, 0) {
            MultiJobProgress::Working => {}
            MultiJobProgress::NeedsTurf(at) => {
                assert!(at.y != 1);
                job.supply(at, None);
            }
            MultiJobProgress::Found(end) => break end,
            other => panic!("unexpected {:?}", other),
        }
    };
    assert_eq!(end, node(1, 1, 2, 1));
    assert_eq!(
        job.grid.lookup(node(1, 1, 1, 1)),
        Ok(Some(TurfInfo {
            open_edges: EAST,
            simulated: false
        }))
    );
    assert_eq!(
        job.grid.lookup(node(1, 1, 4, 4)),
        Err(Request::Turf(node(1, 1, 4, 4)))
    );
    // A layer without a z-level has no turfs, whatever is published.
    assert_eq!(job.grid.cached_info(&published, node(1, 6, 4, 4)), Some(None));
    assert_eq!(job.grid.cached_info(&published, node(1, 1, 4, 4)), None);
}

/// Diagonals of the final path are replaced as requested, actions staying beside their turfs.
#[test]
fn layered_diagonals_are_replaced() {
    let links = vec![NavLink::new(6, (2, 2, 1), (4, 4, 3), 1)];
    let mut job = job_for(
        &PathRequest {
            diagonal_handling: Some(1),
            ..request((1, 1, 1), (5, 5, 3))
        },
        &links,
    );
    assert_eq!(job.diagonal_handling, DiagonalHandling::RemoveAll);
    let end = run(&mut job, &|_| true).unwrap();
    let path = path_of(&job, end);
    assert_eq!(
        path.turfs,
        vec![
            (1, 1, 1),
            (1, 2, 1),
            (2, 2, 1),
            (4, 4, 3),
            (4, 5, 3),
            (5, 5, 3)
        ]
    );
    assert_eq!(
        path.actions,
        vec![
            LayeredAction::Plain,
            LayeredAction::Plain,
            LayeredAction::Plain,
            LayeredAction::Link(6),
            LayeredAction::Plain,
            LayeredAction::Plain
        ]
    );
}

/// Both routes around a diagonal are looked at.
#[test]
fn layered_routes_look_both_ways() {
    let mut job = job_for(&request((1, 1, 1), (2, 2, 1)), &vec![]);
    let from = node(1, 0, 1, 1);
    let to = node(1, 0, 2, 2);
    assert_eq!(job.grid.diagonal_routes(from, to), Err(Request::Turf(from)));
    for (x, y, open_edges) in [(1, 1, ALL), (2, 2, ALL), (1, 2, ALL), (2, 1, WEST)] {
        let info = TurfInfo {
            open_edges,
            simulated: true,
        };
        job.supply(node(1, 0, x, y), Some(info));
    }
    assert_eq!(
        job.grid.diagonal_routes(from, to),
        Ok(DiagonalRoutes {
            north_south_first: true,
            east_west_first: false
        })
    );
}

/// Actions are encoded by direction and by negated identifier.
#[test]
fn actions_have_codes() {
    assert_eq!(LayeredAction::Plain.code(), None);
    assert_eq!(LayeredAction::Vertical(DOWN).code(), Some(32));
    assert_eq!(LayeredAction::Link(17).code(), Some(-17));
}
