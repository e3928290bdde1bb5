use navmap_pathfinder::diagonals::DiagonalHandling;
use navmap_pathfinder::error::{record_count, NavPathError};
use navmap_pathfinder::geometry::TurfCoords;
use navmap_pathfinder::layered_grid::LayeredAction;
use navmap_pathfinder::multi_search::MultiSearchJob;
use navmap_pathfinder::registry::{
    all_located, blocking_reply, blocking_single_reply, failed, found_multi_outcome, found_outcome,
    parse_job_id, run_job, run_multi_job, turned_down, Claim, JobError, JobIdValue, JobOutcome,
    MultiJobOutcome, Registry, Response, Status, IDLE_TIMEOUT,
};
use navmap_pathfinder::request::{
    new_multi_search_job, new_search_job, truthy, AvoidTurf, Operand, PathRequest,
};
use navmap_pathfinder::search::SearchJob;
use navmap_pathfinder::topology::Topology;

fn request(start: TurfCoords, end: TurfCoords) -> PathRequest {
    PathRequest {
        start: Some(start),
        end: Some(end),
        pass_flags: Some(3),
        is_flying: Operand::Number { nonzero: true },
        max_range: Some(9),
        min_target_distance: Some(1),
        simulated_only: Operand::Number { nonzero: false },
        avoid: AvoidTurf::Nothing,
        diagonal_handling: Some(2),
        skip_first: Operand::Other,
        max_path_cost: Some(77),
    }
}

fn single(now: u128) -> SearchJob {
    new_search_job(&request((1, 1, 1), (2, 2, 1)), now)
        .unwrap()
        .unwrap()
}

fn multi(now: u128) -> MultiSearchJob {
    let topology = Topology::new(1, &vec![(1, 0, 1)]);
    new_multi_search_job(&request((1, 1, 1), (2, 2, 1)), &topology, &vec![], now)
        .unwrap()
        .unwrap()
}

fn text(id: &str) -> JobIdValue {
    JobIdValue::Text(id.as_bytes().to_vec())
}

/// Null and zero are false, everything else is true.
#[test]
fn truth_of_values() {
    assert!(!truthy(Operand::Null));
    assert!(!truthy(Operand::Number { nonzero: false }));
    assert!(truthy(Operand::Number { nonzero: true }));
    assert!(truthy(Operand::Other));
}

/// The settings of a request arrive in the search.
#[test]
fn single_level_request_sets_up_a_search() {
    let job = new_search_job(&request((3, 4, 2), (5, 6, 2)), 42)
        .unwrap()
        .unwrap();
    assert_eq!(job.grid.z, 2);
    assert_eq!(job.grid.start, (3, 4));
    assert_eq!(job.goal, (5, 6));
    assert_eq!(job.grid.pass_flags, 3);
    assert!(job.grid.is_flying);
    assert!(!job.grid.simulated_only);
    assert!(job.skip_first);
    assert_eq!(job.grid.max_range, 9);
    assert_eq!(job.min_target_distance, 1);
    assert_eq!(job.diagonal_handling, DiagonalHandling::RemoveClunky);
    assert_eq!(job.last_touched, 42);
    let bare = PathRequest {
        pass_flags: None,
        max_range: Some(-4),
        min_target_distance: None,
        ..request((3, 4, 2), (5, 6, 2))
    };
    let job = new_search_job(&bare, 0).unwrap().unwrap();
    assert_eq!(job.grid.pass_flags, 0);
    assert_eq!(job.grid.max_range, 0);
    assert_eq!(job.min_target_distance, 0);
}

/// Each fault of a single-level request is told apart.
#[test]
fn single_level_faults() {
    let ask = request((1, 1, 1), (2, 2, 2));
    assert_eq!(
        new_search_job(&ask, 0).err(),
        Some(NavPathError::DifferentZLevels)
    );
    let ask = PathRequest { start: None, ..request((1, 1, 1), (2, 2, 1)) };
    assert_eq!(new_search_job(&ask, 0).err(), Some(NavPathError::NotATurf));
    let ask = PathRequest { end: None, ..request((1, 1, 1), (2, 2, 1)) };
    assert_eq!(new_search_job(&ask, 0).err(), Some(NavPathError::NotATurf));
    let ask = PathRequest {
        avoid: AvoidTurf::Turf(None),
        ..request((1, 1, 1), (2, 2, 1))
    };
    assert_eq!(new_search_job(&ask, 0).err(), Some(NavPathError::NotATurf));
}

/// A forbidden start and a target out of range need no search.
#[test]
fn hopeless_requests_set_up_nothing() {
    let ask = PathRequest {
        avoid: AvoidTurf::Turf(Some((1, 1, 1))),
        ..request((1, 1, 1), (2, 2, 1))
    };
    assert!(new_search_job(&ask, 0).unwrap().is_none());
    // The same place on another level does not matter.
    let ask = PathRequest {
        avoid: AvoidTurf::Turf(Some((1, 1, 5))),
        ..request((1, 1, 1), (2, 2, 1))
    };
    let job = new_search_job(&ask, 0).unwrap().unwrap();
    assert_eq!(job.grid.avoid, None);
    // Nine turfs of range and one of radius reach ten turfs away.
    assert!(new_search_job(&request((1, 1, 1), (11, 1, 1)), 0)
        .unwrap()
        .is_some());
    assert!(new_search_job(&request((1, 1, 1), (12, 1, 1)), 0)
        .unwrap()
        .is_none());
    let unlimited = PathRequest {
        max_range: None,
        ..request((1, 1, 1), (500, 1, 1))
    };
    assert!(new_search_job(&unlimited, 0).unwrap().is_some());
    let widest = PathRequest {
        max_range: Some(i32::MAX),
        min_target_distance: Some(i32::MAX),
        ..request((1, 1, 1), (500, 1, 1))
    };
    assert!(new_search_job(&widest, 0).unwrap().is_some());
}

/// Distances that do not fit are noticed where they would be measured.
#[test]
fn request_room_is_tested() {
    let far = request((i16::MIN, 1, 1), (i16::MAX, 1, 1));
    assert!(!far.room_left());
    assert!(PathRequest { max_range: None, ..far }.room_left());
    assert!(PathRequest { start: None, ..far }.room_left());
    assert!(request((1, 1, 1), (9, 9, 1)).room_left());
}

/// Start and end need a place in the topology; the avoided turf does not.
#[test]
fn multi_level_request_needs_known_levels() {
    let topology = Topology::new(4, &vec![(1, 0, 1), (1, 1, 2)]);
    let links = vec![];
    let ask = request((1, 1, 1), (2, 2, 2));
    let job = new_multi_search_job(&ask, &topology, &links, 6)
        .unwrap()
        .unwrap();
    assert_eq!(job.grid.max_cost, 77);
    assert_eq!(job.grid.topology.generation, 4);
    assert_eq!(job.grid.start.layer, 0);
    assert_eq!(job.goal.layer, 1);
    assert_eq!(job.last_touched, 6);
    let ask = request((1, 1, 1), (2, 2, 8));
    assert!(new_multi_search_job(&ask, &topology, &links, 0)
        .unwrap()
        .is_none());
    // Without a place for both ends nothing else is looked at.
    let ask = PathRequest {
        avoid: AvoidTurf::Turf(None),
        ..request((1, 1, 1), (2, 2, 8))
    };
    assert!(new_multi_search_job(&ask, &topology, &links, 0)
        .unwrap()
        .is_none());
    let ask = PathRequest {
        avoid: AvoidTurf::Turf(None),
        ..request((1, 1, 1), (2, 2, 2))
    };
    assert_eq!(
        new_multi_search_job(&ask, &topology, &links, 0).err(),
        Some(NavPathError::NotATurf)
    );
    let ask = PathRequest { end: None, ..request((1, 1, 1), (2, 2, 2)) };
    assert_eq!(
        new_multi_search_job(&ask, &topology, &links, 0).err(),
        Some(NavPathError::NotATurf)
    );
    let ask = PathRequest {
        avoid: AvoidTurf::Turf(Some((1, 1, 9))),
        ..request((1, 1, 1), (2, 2, 2))
    };
    let job = new_multi_search_job(&ask, &topology, &links, 0)
        .unwrap()
        .unwrap();
    assert_eq!(job.grid.avoid, None);
}

/// Errors have their texts.
#[test]
fn error_texts() {
    assert_eq!(
        NavPathError::DifferentZLevels.message(),
        "start and end turfs are on different z-levels"
    );
    assert_eq!(NavPathError::NotATurf.message(), "argument was not a turf");
    assert_eq!(
        NavPathError::InvalidBulkUpdateLength.message(),
        "navmap bulk update list length must be a multiple of 4"
    );
    assert_eq!(
        JobError::InvalidJobId.message(),
        "invalid navmap pathfinder job ID"
    );
    assert_eq!(
        JobError::UnknownJob.message(),
        "unknown or expired navmap pathfinder job"
    );
    assert_eq!(JobError::Failed("lost".to_string()).message(), "lost");
}

/// Flat lists divide into records or are refused.
#[test]
fn flat_lists_divide_into_records() {
    assert_eq!(record_count(12, 4), Ok(3));
    assert_eq!(record_count(0, 3), Ok(0));
    assert_eq!(
        record_count(13, 4),
        Err(NavPathError::InvalidBulkUpdateLength)
    );
    assert_eq!(
        record_count(7, 8),
        Err(NavPathError::InvalidBulkUpdateLength)
    );
}

/// Identifiers come as numbers or as decimal texts.
#[test]
fn job_ids_are_parsed() {
    assert_eq!(
        parse_job_id(&JobIdValue::Number { whole: true, value: 5 }),
        Some(5)
    );
    assert_eq!(
        parse_job_id(&JobIdValue::Number { whole: false, value: 5 }),
        None
    );
    assert_eq!(parse_job_id(&JobIdValue::Unreadable), None);
    let texts = [
        "0",
        "12",
        "+12",
        "0012",
        "18446744073709551615",
        "18446744073709551616",
        "99999999999999999999999999999999999999999999",
        "",
        "+",
        "-1",
        "-0",
        "++1",
        " 1",
        "1 ",
        "1.0",
        "1e3",
        "1_0",
        "0x1",
        "12a",
    ];
    for id in texts {
        assert_eq!(parse_job_id(&text(id)), id.parse::<u64>().ok(), "{}", id);
    }
}

/// A job that goes on is kept; one that is over is not.
#[test]
fn single_level_replies() {
    let (kept, reply) = run_job::<u8>(single(0), 4, JobOutcome::InProgress);
    assert!(kept.is_some());
    assert_eq!(reply.status.text(), "in_progress");
    assert_eq!(reply.job_id, Some(4));
    assert!(reply.path.is_none() && reply.actions.is_none() && reply.error.is_none());
    let (kept, reply) = run_job::<u8>(single(0), 4, JobOutcome::NoPath);
    assert!(kept.is_none());
    assert_eq!(reply.status.text(), "no_path");
    assert_eq!(reply.job_id, None);
    assert_eq!(reply.path, Some(vec![]));
    let (kept, reply) = run_job(single(0), 4, JobOutcome::Found(vec![7u8, 8]));
    assert!(kept.is_none());
    assert_eq!(reply.status.text(), "complete");
    assert_eq!(reply.path, Some(vec![7, 8]));
    assert!(reply.job_id.is_none() && reply.actions.is_none());
}

/// Multi-level replies carry actions once the search is over.
#[test]
fn multi_level_replies() {
    let (kept, reply) = run_multi_job::<u8>(multi(0), 4, MultiJobOutcome::InProgress);
    assert!(kept.is_some());
    assert_eq!(reply.status, Status::InProgress);
    assert!(reply.actions.is_none());
    let (kept, reply) = run_multi_job::<u8>(multi(0), 4, MultiJobOutcome::Stale);
    assert!(kept.is_none());
    assert_eq!(reply.status.text(), "stale_topology");
    assert_eq!(reply.job_id, Some(4));
    assert!(reply.path.is_none());
    let (kept, reply) = run_multi_job::<u8>(multi(0), 4, MultiJobOutcome::NoPath);
    assert!(kept.is_none());
    assert_eq!(reply.path, Some(vec![]));
    assert_eq!(reply.actions, Some(vec![]));
    let taken = vec![LayeredAction::Link(3)];
    let (kept, reply) = run_multi_job(multi(0), 4, MultiJobOutcome::Found(vec![1u8], taken.clone()));
    assert!(kept.is_none());
    assert_eq!(reply.status, Status::Complete);
    assert_eq!(reply.path, Some(vec![1]));
    assert_eq!(reply.actions, Some(taken));
}

/// Requests without a search and failed searches have replies of their own.
#[test]
fn other_replies() {
    let reply: Response<u8> = turned_down();
    assert_eq!(reply.status, Status::NoPath);
    assert_eq!(reply.path, Some(vec![]));
    assert!(reply.actions.is_none() && reply.job_id.is_none());
    let reply: Response<u8> = failed(9, "lost".to_string());
    assert_eq!(reply.status.text(), "error");
    assert_eq!(reply.job_id, Some(9));
    assert_eq!(reply.error.unwrap().message(), "lost");
}

/// A job can be resumed while it is alive, once.
#[test]
fn jobs_are_resumed_while_alive() {
    let mut registry = Registry::new();
    registry.register(1, single(100), 100);
    registry.register_multi(2, multi(100), 100);
    let last = 100 + IDLE_TIMEOUT - 1;
    let (id, claim) = registry.resume::<u8>(&text("1"), last).ok().unwrap();
    assert_eq!(id, 1);
    assert!(matches!(claim, Claim::Single(_)));
    let (id, claim) = registry.resume::<u8>(&text("+2"), last).ok().unwrap();
    assert_eq!(id, 2);
    assert!(matches!(claim, Claim::Multi(_)));
    let reply = registry.resume::<u8>(&text("1"), last).err().unwrap();
    assert_eq!(reply.status, Status::Error);
    assert_eq!(reply.job_id, Some(1));
    assert!(matches!(reply.error, Some(JobError::UnknownJob)));
    registry.put_back(1, single(100));
    registry.put_back_multi(2, multi(100));
    assert!(registry.resume::<u8>(&text("1"), last + 1).is_err());
    assert!(registry.resume::<u8>(&text("2"), last + 1).is_err());
    let reply = registry.resume::<u8>(&text("one"), last).err().unwrap();
    assert_eq!(reply.job_id, None);
    assert!(matches!(reply.error, Some(JobError::InvalidJobId)));
}

/// A cancelled job is gone; others stay.
#[test]
fn cancelled_jobs_are_gone() {
    let mut registry = Registry::new();
    registry.register(1, single(0), 0);
    registry.register(3, single(0), 0);
    registry.register_multi(2, multi(0), 0);
    let reply: Response<u8> = registry.cancel(&text("1"), 5);
    assert_eq!(reply.status.text(), "cancelled");
    assert_eq!(reply.job_id, Some(1));
    assert!(reply.error.is_none());
    let reply: Response<u8> = registry.cancel(&JobIdValue::Number { whole: true, value: 2 }, 5);
    assert_eq!(reply.status, Status::Cancelled);
    for gone in ["1", "2", "77"] {
        let reply: Response<u8> = registry.cancel(&text(gone), 5);
        assert_eq!(reply.status, Status::Error);
        assert!(matches!(reply.error, Some(JobError::UnknownJob)));
    }
    let reply: Response<u8> = registry.cancel(&JobIdValue::Unreadable, 5);
    assert!(matches!(reply.error, Some(JobError::InvalidJobId)));
    assert_eq!(reply.job_id, None);
    assert!(matches!(registry.claim(3, 5), Claim::Single(_)));
}

/// Starting a job clears out expired ones of its kind.
#[test]
fn registering_prunes_its_own_kind() {
    let mut registry = Registry::new();
    registry.register(1, single(0), 0);
    registry.register_multi(2, multi(0), 0);
    let now = IDLE_TIMEOUT + 1;
    registry.register(3, single(now), now);
    assert!(!registry.jobs.contains_key(&1));
    assert!(registry.jobs.contains_key(&3));
    assert!(registry.multi_jobs.contains_key(&2));
    registry.register_multi(4, multi(now), now);
    assert!(!registry.multi_jobs.contains_key(&2));
    assert!(registry.multi_jobs.contains_key(&4));
}

/// The blocking call returns the path of the reply that ends a search.
#[test]
fn blocking_replies() {
    assert_eq!(blocking_single_reply::<u8>(JobOutcome::InProgress), None);
    assert_eq!(blocking_single_reply::<u8>(JobOutcome::NoPath), Some(vec![]));
    assert_eq!(
        blocking_single_reply(JobOutcome::Found(vec![7u8, 8])),
        run_job(single(0), 1, JobOutcome::Found(vec![7u8, 8])).1.path
    );
    assert_eq!(blocking_reply::<u8>(MultiJobOutcome::InProgress), None);
    assert_eq!(blocking_reply::<u8>(MultiJobOutcome::NoPath), Some(vec![]));
    assert_eq!(blocking_reply::<u8>(MultiJobOutcome::Stale), Some(vec![]));
    let taken = vec![LayeredAction::Plain];
    assert_eq!(
        blocking_reply(MultiJobOutcome::Found(vec![3u8], taken)),
        Some(vec![3])
    );
}

/// One turf that is not there leaves nothing of a path.
#[test]
fn paths_are_located_whole_or_not_at_all() {
    assert_eq!(all_located(vec![Some(1u8), Some(2), Some(3)]), Some(vec![1, 2, 3]));
    assert_eq!(all_located(vec![Some(1u8), None, Some(3)]), None);
    assert_eq!(all_located(vec![None::<u8>]), None);
    assert_eq!(all_located(Vec::<Option<u8>>::new()), Some(vec![]));
    let single_path = |turfs: Option<Vec<Option<u8>>>| match found_outcome(turfs) {
        JobOutcome::Found(path) => path,
        _ => unreachable!(),
    };
    assert_eq!(single_path(Some(vec![Some(1), Some(2)])), vec![1, 2]);
    assert_eq!(single_path(Some(vec![Some(1), None])), vec![]);
    assert_eq!(single_path(None), vec![]);
    let multi_path = |found: Option<(Vec<Option<u8>>, Vec<LayeredAction>)>, skip_first: bool| {
        match found_multi_outcome(found, skip_first) {
            MultiJobOutcome::Found(path, taken) => (path, taken),
            _ => unreachable!(),
        }
    };
    let taken = vec![LayeredAction::Plain, LayeredAction::Link(4)];
    let turfs = vec![Some(1), Some(2)];
    assert_eq!(
        multi_path(Some((turfs.clone(), taken.clone())), false),
        (vec![1, 2], taken.clone())
    );
    assert_eq!(
        multi_path(Some((turfs, taken.clone())), true),
        (vec![2], vec![LayeredAction::Link(4)])
    );
    assert_eq!(multi_path(Some((vec![Some(1), None], taken)), true), (vec![], vec![]));
    assert_eq!(multi_path(None, true), (vec![], vec![]));
}

/// Identifiers are counted up from one.
#[test]
fn identifiers_are_counted_up() {
    let mut registry = Registry::new();
    assert_eq!(registry.issue_id(), 1);
    assert_eq!(registry.issue_id(), 2);
    let id = registry.issue_id();
    registry.register(id, single(0), 0);
    assert_eq!(registry.issue_id(), 4);
    registry.next_id = u64::MAX;
    assert_eq!(registry.issue_id(), u64::MAX);
    assert_eq!(registry.issue_id(), 0);
}

/// A job that was taken out and not put back stays unknown, whatever else happens.
#[test]
fn finished_jobs_stay_unknown() {
    let mut registry = Registry::new();
    let first = registry.issue_id();
    registry.register(first, single(0), 0);
    let second = registry.issue_id();
    registry.register_multi(second, multi(0), 0);
    for (id, now) in [(first, 1), (second, 2)] {
        assert!(registry.resume::<u8>(&text(&id.to_string()), now).is_ok());
        let third = registry.issue_id();
        registry.register(third, single(now), now);
        let reply = registry.resume::<u8>(&text(&id.to_string()), now).err().unwrap();
        assert_eq!(reply.status.text(), "error");
        assert_eq!(reply.job_id, Some(id));
        assert!(reply.path.is_none());
        assert_eq!(
            reply.error.unwrap().message(),
            "unknown or expired navmap pathfinder job"
        );
    }
}

/// An idle job is unknown whether or not the start of another one has cleared it out.
#[test]
fn idle_jobs_are_unknown() {
    for cleared_out in [false, true] {
        let mut registry = Registry::new();
        let id = registry.issue_id();
        registry.register(id, single(0), 0);
        if cleared_out {
            let other = registry.issue_id();
            registry.register(other, single(IDLE_TIMEOUT), IDLE_TIMEOUT);
            assert!(!registry.jobs.contains_key(&id));
        }
        let reply = registry.resume::<u8>(&text("1"), IDLE_TIMEOUT).err().unwrap();
        assert!(matches!(reply.error, Some(JobError::UnknownJob)));
    }
}
