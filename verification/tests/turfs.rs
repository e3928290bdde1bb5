use navmap_pathfinder::directions::{DOWN, EAST, NORTH, SOUTH, UP, WEST};
use navmap_pathfinder::nav_pass::{
    cache_nav_pass, cache_nav_passes, cached_nav_pass, cached_turf_info,
    cached_unconditional_edges, nav_pass_is_simulated, NavPassCache, TurfInfo, BAKED_FLAG,
    COND_SHIFT, FLYING_SHIFT, SIMULATED_FLAG, VERTICAL_SHIFT,
};
use navmap_pathfinder::probe::{Blocker, EdgeCheck, EdgeStage, ProbeStage, TurfProbe};

/// Walking edges lie in the low bits, flying ones above them.
#[test]
fn unconditional_edges_are_decoded_by_class() {
    let walking = NORTH | EAST;
    let flying = (SOUTH | WEST | UP) << FLYING_SHIFT;
    let nav_pass = BAKED_FLAG | walking | flying;
    assert_eq!(
        cached_unconditional_edges(nav_pass, false),
        Some((NORTH | EAST, 0))
    );
    assert_eq!(
        cached_unconditional_edges(nav_pass, true),
        Some((SOUTH | WEST, UP))
    );
}

/// A conditional edge of the mover's class keeps a value from being decoded.
#[test]
fn conditional_edges_are_not_decoded() {
    let nav_pass = BAKED_FLAG | NORTH | EAST | (EAST << COND_SHIFT);
    assert_eq!(cached_unconditional_edges(nav_pass, false), None);
    // The flying class has no edge at all here, so nothing is left to decide.
    assert_eq!(cached_unconditional_edges(nav_pass, true), Some((0, 0)));
    let vertical = (UP << FLYING_SHIFT) | (UP << COND_SHIFT);
    assert_eq!(cached_unconditional_edges(vertical, true), None);
    assert_eq!(cached_unconditional_edges(vertical, false), Some((0, 0)));
}

/// The simulated flag is one bit.
#[test]
fn simulated_flag_is_read() {
    assert!(nav_pass_is_simulated(SIMULATED_FLAG | 3));
    assert!(!nav_pass_is_simulated(BAKED_FLAG | 3));
}

/// Only a baked value without undecided edges settles a turf.
#[test]
fn published_values_settle_turfs_only_when_baked() {
    let mut cache = NavPassCache::new();
    let here = (3, 4, 1);
    assert_eq!(cached_turf_info(&cache, here, false, false), None);
    cache_nav_pass(&mut cache, here, NORTH);
    assert_eq!(cached_turf_info(&cache, here, false, false), None);
    cache_nav_pass(&mut cache, here, BAKED_FLAG | SIMULATED_FLAG | NORTH);
    assert_eq!(
        cached_turf_info(&cache, here, false, false),
        Some(TurfInfo {
            open_edges: NORTH,
            simulated: true
        })
    );
    cache_nav_pass(&mut cache, here, BAKED_FLAG | (DOWN << FLYING_SHIFT));
    assert_eq!(
        cached_turf_info(&cache, here, true, true),
        Some(TurfInfo {
            open_edges: DOWN << VERTICAL_SHIFT,
            simulated: false
        })
    );
}

/// In a batch the last value for a turf wins; other turfs are left alone.
#[test]
fn batch_publishes_in_order() {
    let mut cache = NavPassCache::new();
    cache_nav_pass(&mut cache, (9, 9, 9), 7);
    let values = vec![((1, 1, 1), 5), ((2, 1, 1), 6), ((1, 1, 1), 8)];
    cache_nav_passes(&mut cache, &values);
    assert_eq!(cached_nav_pass(&cache, (1, 1, 1)), Some(8));
    assert_eq!(cached_nav_pass(&cache, (2, 1, 1)), Some(6));
    assert_eq!(cached_nav_pass(&cache, (9, 9, 9)), Some(7));
    assert_eq!(cached_nav_pass(&cache, (1, 2, 1)), None);
}

/// An edge without blockers is open; pass flags need one bit in common.
#[test]
fn pass_flags_open_or_block_an_edge() {
    assert_eq!(EdgeCheck::new(NORTH, 0, None).stage, EdgeStage::Open);
    assert_eq!(
        EdgeCheck::new(NORTH, 6, Some(vec![Blocker::PassFlags(2)])).stage,
        EdgeStage::Open
    );
    assert_eq!(
        EdgeCheck::new(
            NORTH,
            4,
            Some(vec![Blocker::PassFlags(2), Blocker::Object])
        )
        .stage,
        EdgeStage::Blocked
    );
}

/// Objects are asked one after the other until one of them objects.
#[test]
fn objects_are_asked_in_order() {
    let blockers = vec![
        Blocker::PassFlags(1),
        Blocker::Object,
        Blocker::PassFlags(1),
        Blocker::Object,
    ];
    let mut check = EdgeCheck::new(EAST, 1, Some(blockers.clone()));
    assert_eq!(check.stage, EdgeStage::Asking(1));
    assert_eq!(check.asked_dir(true), EAST);
    assert_eq!(check.asked_dir(false), WEST);
    check.answered(true);
    assert_eq!(check.stage, EdgeStage::Asking(3));
    check.answered(true);
    assert_eq!(check.stage, EdgeStage::Open);
    let mut check = EdgeCheck::new(EAST, 1, Some(blockers));
    check.answered(false);
    assert_eq!(check.stage, EdgeStage::Blocked);
}

/// A missing turf ends the lookup with nothing.
#[test]
fn missing_turf_has_no_data() {
    let mut probe = TurfProbe::new((1, 1, 1), false, false);
    assert_eq!(probe.stage, ProbeStage::Locating);
    probe.located(false);
    assert_eq!(probe.stage, ProbeStage::Finished(None));
}

/// A published value wins over what is read from the turf.
#[test]
fn published_value_wins_over_reading() {
    let mut cache = NavPassCache::new();
    cache_nav_pass(
        &mut cache,
        (1, 1, 1),
        BAKED_FLAG | NORTH | (NORTH << COND_SHIFT),
    );
    let mut probe = TurfProbe::new((1, 1, 1), false, false);
    probe.located(true);
    probe.nav_pass_read(&mut cache, BAKED_FLAG | SOUTH);
    assert_eq!(probe.asked_dir(), Some(NORTH));
    probe.edge_checked(true);
    assert_eq!(
        probe.stage,
        ProbeStage::Finished(Some(TurfInfo {
            open_edges: NORTH,
            simulated: false
        }))
    );
}

/// A dirty turf is baked, read again, and what the bake gives is published.
#[test]
fn dirty_turf_is_baked_and_published() {
    let mut cache = NavPassCache::new();
    cache_nav_pass(&mut cache, (1, 1, 1), 0);
    let mut probe = TurfProbe::new((1, 1, 1), false, false);
    probe.located(true);
    probe.nav_pass_read(&mut cache, BAKED_FLAG | SOUTH);
    assert_eq!(probe.stage, ProbeStage::Baking);
    probe.bake_done();
    let fresh = BAKED_FLAG | SIMULATED_FLAG | EAST;
    probe.nav_pass_read(&mut cache, fresh);
    assert_eq!(cached_nav_pass(&cache, (1, 1, 1)), Some(fresh));
    assert_eq!(
        probe.stage,
        ProbeStage::Finished(Some(TurfInfo {
            open_edges: EAST,
            simulated: true
        }))
    );
}

/// A turf that stays dirty opens no edge, and nothing is published for it.
#[test]
fn stubborn_turf_opens_nothing() {
    let mut cache = NavPassCache::new();
    let mut probe = TurfProbe::new((1, 1, 1), false, false);
    probe.located(true);
    probe.nav_pass_read(&mut cache, NORTH);
    probe.bake_done();
    probe.nav_pass_read(&mut cache, SIMULATED_FLAG | NORTH);
    assert_eq!(
        probe.stage,
        ProbeStage::Finished(Some(TurfInfo {
            open_edges: 0,
            simulated: true
        }))
    );
    assert_eq!(cached_nav_pass(&cache, (1, 1, 1)), None);
}

/// Each undecided edge is checked once, in order, and its verdict shows in the result.
#[test]
fn verdicts_show_in_the_turf_data() {
    let mut cache = NavPassCache::new();
    let class = (NORTH | SOUTH | EAST | UP | DOWN) << FLYING_SHIFT;
    let conditional = (SOUTH | EAST | DOWN) << COND_SHIFT;
    let mut probe = TurfProbe::new((1, 1, 1), true, true);
    probe.located(true);
    probe.nav_pass_read(&mut cache, BAKED_FLAG | class | conditional);
    assert_eq!(probe.asked_dir(), Some(SOUTH));
    probe.edge_checked(false);
    assert_eq!(probe.asked_dir(), Some(EAST));
    probe.edge_checked(true);
    assert_eq!(probe.asked_dir(), Some(DOWN));
    probe.edge_checked(true);
    assert_eq!(probe.asked_dir(), None);
    assert_eq!(
        probe.stage,
        ProbeStage::Finished(Some(TurfInfo {
            open_edges: NORTH | EAST | ((UP | DOWN) << VERTICAL_SHIFT),
            simulated: false
        }))
    );
}

/// Without layers the vertical edges are not asked about.
#[test]
fn vertical_edges_do_not_matter_on_one_level() {
    let mut cache = NavPassCache::new();
    let mut probe = TurfProbe::new((1, 1, 1), true, false);
    probe.located(true);
    probe.nav_pass_read(
        &mut cache,
        BAKED_FLAG | (UP << FLYING_SHIFT) | (UP << COND_SHIFT),
    );
    assert_eq!(
        probe.stage,
        ProbeStage::Finished(Some(TurfInfo {
            open_edges: 0,
            simulated: false
        }))
    );
}
