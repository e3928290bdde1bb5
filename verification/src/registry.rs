//! The registry of active jobs and the replies to its callers.

use crate::diagonals::{skip_first_item, skipped};
use crate::layered_grid::LayeredAction;
use crate::multi_search::MultiSearchJob;
use crate::search::SearchJob;
use std::collections::HashMap;
use vstd::prelude::*;
use vstd::std_specs::iter::IteratorSpec;

verus! {

broadcast use vstd::std_specs::hash::group_hash_axioms;

/// Nanoseconds before an inactive search job expires.
pub const IDLE_TIMEOUT: u128 = 30_000_000_000;

/// Whether a job that was last active at one time is still alive at another.
pub open spec fn alive(last_touched: u128, now: u128) -> bool {
    now - last_touched < IDLE_TIMEOUT
}

/// Tests whether a job is still alive.
fn is_alive(last_touched: u128, now: u128) -> (ok: bool)
    ensures
        ok == alive(last_touched, now),
{
    now < last_touched || now - last_touched < IDLE_TIMEOUT
}

/// The single-level jobs that are still alive.
pub open spec fn live_jobs(jobs: Map<u64, SearchJob>, now: u128) -> Map<u64, SearchJob> {
    Map::new(
        |id: u64| jobs.contains_key(id) && alive(jobs[id].last_touched, now),
        |id: u64| jobs[id],
    )
}

/// The multi-level jobs that are still alive.
pub open spec fn live_multi_jobs(jobs: Map<u64, MultiSearchJob>, now: u128) -> Map<
    u64,
    MultiSearchJob,
> {
    Map::new(
        |id: u64| jobs.contains_key(id) && alive(jobs[id].last_touched, now),
        |id: u64| jobs[id],
    )
}

/// Lists the keys of a map, each once.
fn keys_of<V>(map: &HashMap<u64, V>) -> (keys: Vec<u64>)
    ensures
        keys@.no_duplicates(),
        keys@.to_set() == map@.dom(),
{
    let mut keys: Vec<u64> = Vec::new();
    let ghost all = map.keys().remaining().unref();
    for key in walk: map.keys()
        invariant
            walk.seq().unref() == all,
            keys@ == all.take(walk.index()),
    {
        keys.push(*key);
        assert(keys@ =~= all.take(walk.index() + 1));
    }
    proof {
        let found = map.keys().remaining();
        assert(all.take(all.len() as int) =~= all);
        assert forall|i: int, j: int|
            0 <= i < all.len() && 0 <= j < all.len() && i != j implies all[i] != all[j] by {
            assert(found[i] != found[j]);
        }
    }
    keys
}

/// Removes expired single-level jobs.
pub fn prune_expired_jobs(jobs: &mut HashMap<u64, SearchJob>, now: u128)
    ensures
        final(jobs)@ == live_jobs(old(jobs)@, now),
{
    let ghost before = jobs@;
    let keys = keys_of(jobs);
    let mut at: usize = 0;
    while at < keys.len()
        invariant
            at <= keys@.len(),
            keys@.no_duplicates(),
            keys@.to_set() == before.dom(),
            jobs@.submap_of(before),
            forall|i: int|
                0 <= i < at ==> jobs@.contains_key(#[trigger] keys@[i]) == alive(
                    before[keys@[i]].last_touched,
                    now,
                ),
            forall|i: int| at <= i < keys@.len() ==> jobs@.contains_key(#[trigger] keys@[i]),
        decreases keys@.len() - at,
    {
        let key: u64 = keys[at];
        assert(jobs@.contains_key(keys@[at as int]));
        assert(keys@.to_set().contains(key) && before.dom().contains(key));
        let keep: bool = match jobs.get(&key) {
            Some(job) => is_alive(job.last_touched, now),
            None => true,
        };
        if !keep {
            jobs.remove(&key);
        }
        at = at + 1;
    }
    proof {
        let live = live_jobs(before, now);
        assert forall|id: u64| #[trigger] jobs@.contains_key(id) == live.contains_key(id) by {
            if before.contains_key(id) {
                assert(keys@.to_set().contains(id));
                let i = choose|i: int| 0 <= i < keys@.len() && keys@[i] == id;
                assert(jobs@.contains_key(keys@[i]) == alive(before[keys@[i]].last_touched, now));
            }
        }
        assert(jobs@ =~= live);
    }
}

/// Removes expired multi-level jobs.
pub fn prune_expired_multi_jobs(jobs: &mut HashMap<u64, MultiSearchJob>, now: u128)
    ensures
        final(jobs)@ == live_multi_jobs(old(jobs)@, now),
{
    let ghost before = jobs@;
    let keys = keys_of(jobs);
    let mut at: usize = 0;
    while at < keys.len()
        invariant
            at <= keys@.len(),
            keys@.no_duplicates(),
            keys@.to_set() == before.dom(),
            jobs@.submap_of(before),
            forall|i: int|
                0 <= i < at ==> jobs@.contains_key(#[trigger] keys@[i]) == alive(
                    before[keys@[i]].last_touched,
                    now,
                ),
            forall|i: int| at <= i < keys@.len() ==> jobs@.contains_key(#[trigger] keys@[i]),
        decreases keys@.len() - at,
    {
        let key: u64 = keys[at];
        assert(jobs@.contains_key(keys@[at as int]));
        assert(keys@.to_set().contains(key) && before.dom().contains(key));
        let keep: bool = match jobs.get(&key) {
            Some(job) => is_alive(job.last_touched, now),
            None => true,
        };
        if !keep {
            jobs.remove(&key);
        }
        at = at + 1;
    }
    proof {
        let live = live_multi_jobs(before, now);
        assert forall|id: u64| #[trigger] jobs@.contains_key(id) == live.contains_key(id) by {
            if before.contains_key(id) {
                assert(keys@.to_set().contains(id));
                let i = choose|i: int| 0 <= i < keys@.len() && keys@[i] == id;
                assert(jobs@.contains_key(keys@[i]) == alive(before[keys@[i]].last_touched, now));
            }
        }
        assert(jobs@ =~= live);
    }
}

/// How a call turned out.
#[derive(Clone, Copy, Debug, PartialEq, Eq, Structural)]
pub enum Status {
    /// The job goes on.
    InProgress,
    /// There is no path.
    NoPath,
    /// A path was found.
    Complete,
    /// The topology has changed since the job began.
    StaleTopology,
    /// The call failed.
    Error,
    /// The job was cancelled.
    Cancelled,
}

impl Status {
    /// The word for a status.
    pub fn text(&self) -> (word: &'static str)
        ensures
            word@ == (match self {
                Status::InProgress => "in_progress"@,
                Status::NoPath => "no_path"@,
                Status::Complete => "complete"@,
                Status::StaleTopology => "stale_topology"@,
                Status::Error => "error"@,
                Status::Cancelled => "cancelled"@,
            }),
    {
        match self {
            Status::InProgress => "in_progress",
            Status::NoPath => "no_path",
            Status::Complete => "complete",
            Status::StaleTopology => "stale_topology",
            Status::Error => "error",
            Status::Cancelled => "cancelled",
        }
    }
}

/// Why a call about a job failed.
#[derive(Debug)]
pub enum JobError {
    /// The identifier cannot be read.
    InvalidJobId,
    /// No job has the identifier.
    UnknownJob,
    /// The search itself failed.
    Failed(String),
}

impl JobError {
    /// The text shown for an error.
    pub fn message(&self) -> (text: &str)
        ensures
            text@ == (match *self {
                JobError::InvalidJobId => "invalid navmap pathfinder job ID"@,
                JobError::UnknownJob => "unknown or expired navmap pathfinder job"@,
                JobError::Failed(reason) => reason@,
            }),
    {
        match self {
            JobError::InvalidJobId => "invalid navmap pathfinder job ID",
            JobError::UnknownJob => "unknown or expired navmap pathfinder job",
            JobError::Failed(reason) => reason.as_str(),
        }
    }
}

/// A reply to a call; a path is a list of whatever stands for a turf.
pub struct Response<T> {
    /// How the call turned out.
    pub status: Status,
    /// The job that the reply is about.
    pub job_id: Option<u64>,
    /// The path, if the search is over.
    pub path: Option<Vec<T>>,
    /// The action that leads to each turf of the path.
    pub actions: Option<Vec<LayeredAction>>,
    /// What went wrong.
    pub error: Option<JobError>,
}

/// Builds a standard reply.
pub fn status_response<T>(
    status: Status,
    job_id: Option<u64>,
    path: Option<Vec<T>>,
    error: Option<JobError>,
) -> (response: Response<T>)
    ensures
        response == (Response { status, job_id, path, actions: None, error }),
{
    Response { status, job_id, path, actions: None, error }
}

/// Builds a reply with action data.
pub fn status_response_with_actions<T>(
    status: Status,
    job_id: Option<u64>,
    path: Option<Vec<T>>,
    actions: Option<Vec<LayeredAction>>,
    error: Option<JobError>,
) -> (response: Response<T>)
    ensures
        response == (Response { status, job_id, path, actions, error }),
{
    let mut response = status_response(status, job_id, path, error);
    response.actions = actions;
    response
}

/// The reply to a request that no search was set up for.
pub fn turned_down<T>() -> (response: Response<T>)
    ensures
        response.status == Status::NoPath,
        response.job_id is None,
        response.path matches Some(path) && path@.len() == 0,
        response.actions is None,
        response.error is None,
{
    status_response(Status::NoPath, None, Some(Vec::new()), None)
}

/// The reply about a job whose search failed.
pub fn failed<T>(job_id: u64, reason: String) -> (response: Response<T>)
    ensures
        response.status == Status::Error,
        response.job_id == Some(job_id),
        response.path is None,
        response.actions is None,
        response.error == Some(JobError::Failed(reason)),
{
    status_response(Status::Error, Some(job_id), None, Some(JobError::Failed(reason)))
}

/// How a slice of a single-level job ended, its path already located.
pub enum JobOutcome<T> {
    /// The slice is used up.
    InProgress,
    /// There is no path.
    NoPath,
    /// A path was found; it is empty where it cannot be walked in the requested shape.
    Found(Vec<T>),
}

/// What becomes of a single-level job after a slice, and the reply.
pub open spec fn sliced<T>(
    job: SearchJob,
    job_id: u64,
    outcome: JobOutcome<T>,
    kept: Option<SearchJob>,
    response: Response<T>,
) -> bool {
    &&& response.actions is None
    &&& response.error is None
    &&& match outcome {
        JobOutcome::InProgress => {
            &&& kept == Some(job)
            &&& response.status == Status::InProgress
            &&& response.job_id == Some(job_id)
            &&& response.path is None
        },
        JobOutcome::NoPath => {
            &&& kept is None
            &&& response.status == Status::NoPath
            &&& response.job_id is None
            &&& response.path matches Some(path) && path@.len() == 0
        },
        JobOutcome::Found(found) => {
            &&& kept is None
            &&& response.status == Status::Complete
            &&& response.job_id is None
            &&& response.path == Some(found)
        },
    }
}

/// Decides what becomes of a single-level job after a slice and builds the reply.
pub fn run_job<T>(job: SearchJob, job_id: u64, outcome: JobOutcome<T>) -> (result: (
    Option<SearchJob>,
    Response<T>,
))
    ensures
        sliced(job, job_id, outcome, result.0, result.1),
{
    match outcome {
        JobOutcome::InProgress => (
            Some(job),
            status_response(Status::InProgress, Some(job_id), None, None),
        ),
        JobOutcome::NoPath => (
            None,
            status_response(Status::NoPath, None, Some(Vec::new()), None),
        ),
        JobOutcome::Found(path) => (
            None,
            status_response(Status::Complete, None, Some(path), None),
        ),
    }
}

/// How a slice of a multi-level job ended, its path already located.
pub enum MultiJobOutcome<T> {
    /// The slice is used up.
    InProgress,
    /// The topology has changed since the search began.
    Stale,
    /// There is no path.
    NoPath,
    /// A path was found, with its actions; both are empty where it cannot be walked in the
    /// requested shape.
    Found(Vec<T>, Vec<LayeredAction>),
}

/// What becomes of a multi-level job after a slice, and the reply.
pub open spec fn multi_sliced<T>(
    job: MultiSearchJob,
    job_id: u64,
    outcome: MultiJobOutcome<T>,
    kept: Option<MultiSearchJob>,
    response: Response<T>,
) -> bool {
    &&& response.error is None
    &&& match outcome {
        MultiJobOutcome::InProgress => {
            &&& kept == Some(job)
            &&& response.status == Status::InProgress
            &&& response.job_id == Some(job_id)
            &&& response.path is None
            &&& response.actions is None
        },
        MultiJobOutcome::Stale => {
            &&& kept is None
            &&& response.status == Status::StaleTopology
            &&& response.job_id == Some(job_id)
            &&& response.path is None
            &&& response.actions is None
        },
        MultiJobOutcome::NoPath => {
            &&& kept is None
            &&& response.status == Status::NoPath
            &&& response.job_id is None
            &&& response.path matches Some(path) && path@.len() == 0
            &&& response.actions matches Some(actions) && actions@.len() == 0
        },
        MultiJobOutcome::Found(found, taken) => {
            &&& kept is None
            &&& response.status == Status::Complete
            &&& response.job_id is None
            &&& response.path == Some(found)
            &&& response.actions == Some(taken)
        },
    }
}

/// Decides what becomes of a multi-level job after a slice and builds the reply.
pub fn run_multi_job<T>(job: MultiSearchJob, job_id: u64, outcome: MultiJobOutcome<T>) -> (result: (
    Option<MultiSearchJob>,
    Response<T>,
))
    ensures
        multi_sliced(job, job_id, outcome, result.0, result.1),
{
    match outcome {
        MultiJobOutcome::InProgress => (
            Some(job),
            status_response(Status::InProgress, Some(job_id), None, None),
        ),
        MultiJobOutcome::Stale => (
            None,
            status_response(Status::StaleTopology, Some(job_id), None, None),
        ),
        MultiJobOutcome::NoPath => (
            None,
            status_response_with_actions(
                Status::NoPath,
                None,
                Some(Vec::new()),
                Some(Vec::new()),
                None,
            ),
        ),
        MultiJobOutcome::Found(path, actions) => (
            None,
            status_response_with_actions(Status::Complete, None, Some(path), Some(actions), None),
        ),
    }
}

/// What the blocking call returns after a slice of a single-level search: the path, which is empty
/// where there is none, or nothing as long as the search goes on.
pub open spec fn blocking<T>(outcome: JobOutcome<T>, reply: Option<Vec<T>>) -> bool {
    match outcome {
        JobOutcome::InProgress => reply is None,
        JobOutcome::NoPath => reply matches Some(path) && path@.len() == 0,
        JobOutcome::Found(path) => reply == Some(path),
    }
}

/// Decides what the blocking call returns after a slice of a single-level search.
pub fn blocking_single_reply<T>(outcome: JobOutcome<T>) -> (reply: Option<Vec<T>>)
    ensures
        blocking(outcome, reply),
{
    match outcome {
        JobOutcome::InProgress => None,
        JobOutcome::NoPath => Some(Vec::new()),
        JobOutcome::Found(path) => Some(path),
    }
}

/// What the blocking call returns after a slice of a multi-level search: the path without its
/// actions, which is empty where there is none or the topology has changed, or nothing as long as
/// the search goes on.
pub open spec fn multi_blocking<T>(outcome: MultiJobOutcome<T>, reply: Option<Vec<T>>) -> bool {
    match outcome {
        MultiJobOutcome::InProgress => reply is None,
        MultiJobOutcome::NoPath | MultiJobOutcome::Stale => {
            reply matches Some(path) && path@.len() == 0
        },
        MultiJobOutcome::Found(path, _) => reply == Some(path),
    }
}

/// Decides what the blocking call returns after a slice of a multi-level search.
pub fn blocking_reply<T>(outcome: MultiJobOutcome<T>) -> (reply: Option<Vec<T>>)
    ensures
        multi_blocking(outcome, reply),
{
    match outcome {
        MultiJobOutcome::InProgress => None,
        MultiJobOutcome::NoPath | MultiJobOutcome::Stale => Some(Vec::new()),
        MultiJobOutcome::Found(path, _) => Some(path),
    }
}

/// The blocking call returns the path of the reply that ends a resumable search, and returns nothing
/// as long as that search would be kept.
pub proof fn law_blocking_call_returns_the_last_path<T>(
    job: SearchJob,
    job_id: u64,
    outcome: JobOutcome<T>,
    kept: Option<SearchJob>,
    response: Response<T>,
    reply: Option<Vec<T>>,
)
    requires
        sliced(job, job_id, outcome, kept, response),
        blocking(outcome, reply),
    ensures
        reply is None <==> kept is Some,
        reply is None <==> response.status == Status::InProgress,
        reply matches Some(path) ==> (response.path matches Some(last) && last@ == path@),
{
    if let Some(path) = reply {
        assert(response.path->0@ =~= path@);
    }
}

/// The blocking call returns the path of the reply that ends a resumable search, and returns nothing
/// as long as that search would be kept. Where the topology has changed that reply has no path, and
/// the blocking call returns an empty one.
pub proof fn law_blocking_call_returns_the_last_layered_path<T>(
    job: MultiSearchJob,
    job_id: u64,
    outcome: MultiJobOutcome<T>,
    kept: Option<MultiSearchJob>,
    response: Response<T>,
    reply: Option<Vec<T>>,
)
    requires
        multi_sliced(job, job_id, outcome, kept, response),
        multi_blocking(outcome, reply),
    ensures
        reply is None <==> kept is Some,
        reply is None <==> response.status == Status::InProgress,
        reply matches Some(path) ==> if response.status == Status::StaleTopology {
            path@.len() == 0 && response.path is None
        } else {
            response.path matches Some(last) && last@ == path@
        },
{
    if let Some(path) = reply {
        if response.path is Some {
            assert(response.path->0@ =~= path@);
        }
    }
}

/// Whether some turf of a path was not located.
pub open spec fn one_is_missing<T>(turfs: Seq<Option<T>>) -> bool {
    exists|i: int| 0 <= i < turfs.len() && (#[trigger] turfs[i]) is None
}

/// Whether all turfs of a path were located, as the given ones.
pub open spec fn are_located<T>(turfs: Seq<Option<T>>, path: Seq<T>) -> bool {
    &&& path.len() == turfs.len()
    &&& forall|i: int| 0 <= i < turfs.len() ==> #[trigger] turfs[i] == Some(path[i])
}

/// The turfs of a path, or nothing if one of them was not located.
pub fn all_located<T>(turfs: Vec<Option<T>>) -> (path: Option<Vec<T>>)
    ensures
        path is None <==> one_is_missing(turfs@),
        path matches Some(path) ==> are_located(turfs@, path@),
{
    let ghost all = turfs@;
    let mut rest = turfs;
    let mut backwards: Vec<T> = Vec::new();
    while rest.len() > 0
        invariant
            all == turfs@,
            rest@.len() + backwards@.len() == all.len(),
            rest@ == all.take(rest@.len() as int),
            forall|i: int|
                0 <= i < backwards@.len() ==> all[all.len() - 1 - i] == Some(#[trigger] backwards@[i]),
        decreases rest@.len(),
    {
        let ghost last = rest@.len() - 1;
        assert(rest@[last] == all[last]);
        match rest.pop() {
            Some(Some(turf)) => {
                backwards.push(turf);
                assert(rest@ =~= all.take(last));
            },
            _ => {
                assert(all[last] is None);
                return None;
            },
        }
    }
    let ghost collected = backwards@;
    let mut path: Vec<T> = Vec::new();
    while backwards.len() > 0
        invariant
            collected.len() == all.len(),
            backwards@.len() + path@.len() == all.len(),
            backwards@ == collected.take(backwards@.len() as int),
            forall|i: int|
                0 <= i < collected.len() ==> all[all.len() - 1 - i] == Some(#[trigger] collected[i]),
            forall|i: int| 0 <= i < path@.len() ==> all[i] == Some(#[trigger] path@[i]),
        decreases backwards@.len(),
    {
        let ghost last = backwards@.len() - 1;
        assert(backwards@[last] == collected[last]);
        match backwards.pop() {
            Some(turf) => {
                path.push(turf);
                assert(backwards@ =~= collected.take(last));
            },
            None => {},
        }
    }
    assert forall|i: int| 0 <= i < all.len() implies #[trigger] all[i] == Some(path@[i]) by {}
    Some(path)
}

/// How a single-level search ends that found a path: with its turfs, or with an empty path where it
/// cannot be walked in the requested shape or one of its turfs was not located.
pub fn found_outcome<T>(turfs: Option<Vec<Option<T>>>) -> (outcome: JobOutcome<T>)
    ensures
        outcome matches JobOutcome::Found(path) && match turfs {
            Some(turfs) if !one_is_missing(turfs@) => are_located(turfs@, path@),
            _ => path@.len() == 0,
        },
{
    let path = match turfs {
        Some(turfs) => all_located(turfs),
        None => None,
    };
    match path {
        Some(path) => JobOutcome::Found(path),
        None => JobOutcome::Found(Vec::new()),
    }
}

/// How a multi-level search ends that found a path: with its turfs and actions, less the first of
/// each when that is requested, or with none of either where the path cannot be walked in the
/// requested shape or one of its turfs was not located.
pub fn found_multi_outcome<T>(
    found: Option<(Vec<Option<T>>, Vec<LayeredAction>)>,
    skip_first: bool,
) -> (outcome: MultiJobOutcome<T>)
    ensures
        outcome matches MultiJobOutcome::Found(path, taken) && match found {
            Some((turfs, actions)) if !one_is_missing(turfs@) => {
                &&& taken@ == skipped(actions@, skip_first)
                &&& exists|whole: Seq<T>| #[trigger]
                    are_located(turfs@, whole) && path@ == skipped(whole, skip_first)
            },
            _ => path@.len() == 0 && taken@.len() == 0,
        },
{
    if let Some((turfs, actions)) = found {
        if let Some(whole) = all_located(turfs) {
            assert(are_located(turfs@, whole@));
            return MultiJobOutcome::Found(
                skip_first_item(whole, skip_first),
                skip_first_item(actions, skip_first),
            );
        }
    }
    MultiJobOutcome::Found(Vec::new(), Vec::new())
}

/// A value given as a job identifier.
pub enum JobIdValue {
    /// A number that can be read.
    Number {
        /// Whether it is whole and not negative.
        whole: bool,
        /// The number, as far as 64 bits can hold it.
        value: u64,
    },
    /// A text.
    Text(Vec<u8>),
    /// Anything else.
    Unreadable,
}

/// Whether a byte is a decimal digit.
pub open spec fn is_digit(byte: u8) -> bool {
    0x30 <= byte <= 0x39
}

/// The number that decimal digits stand for.
pub open spec fn digits_value(digits: Seq<u8>) -> nat
    decreases digits.len(),
{
    if digits.len() == 0 {
        0
    } else {
        (digits_value(digits.drop_last()) * 10 + (digits.last() - 0x30)) as nat
    }
}

/// The digits of a number, which may be preceded by a plus sign.
pub open spec fn unsigned_part(text: Seq<u8>) -> Seq<u8> {
    if text.len() > 0 && text[0] == 0x2b {
        text.subrange(1, text.len() as int)
    } else {
        text
    }
}

/// The 64-bit number that a text stands for: one or more decimal digits after an optional plus
/// sign, and nothing else.
pub open spec fn text_value(text: Seq<u8>) -> Option<u64> {
    let digits = unsigned_part(text);
    if digits.len() > 0 && (forall|i: int| 0 <= i < digits.len() ==> is_digit(#[trigger] digits[i]))
        && digits_value(digits) <= u64::MAX {
        Some(digits_value(digits) as u64)
    } else {
        None
    }
}

/// The identifier that a value stands for.
pub open spec fn id_of(value: JobIdValue) -> Option<u64> {
    match value {
        JobIdValue::Number { whole, value } => if whole {
            Some(value)
        } else {
            None
        },
        JobIdValue::Text(text) => text_value(text@),
        JobIdValue::Unreadable => None,
    }
}

/// Digits stand for no less than those they begin with.
proof fn lemma_digits_grow(digits: Seq<u8>, count: int)
    requires
        0 <= count <= digits.len(),
        forall|i: int| 0 <= i < digits.len() ==> is_digit(#[trigger] digits[i]),
    ensures
        digits_value(digits.take(count)) <= digits_value(digits),
    decreases digits.len() - count,
{
    if count < digits.len() {
        let next = digits.take(count + 1);
        assert(next.drop_last() =~= digits.take(count));
        assert(is_digit(digits[count]) && next.last() == digits[count]);
        lemma_digits_grow(digits, count + 1);
    } else {
        assert(digits.take(count) =~= digits);
    }
}

/// Reads a number from a text.
fn parse_number(text: &Vec<u8>) -> (number: Option<u64>)
    ensures
        number == text_value(text@),
{
    let signed: bool = text.len() > 0 && text[0] == 0x2b;
    let first: usize = if signed { 1 } else { 0 };
    let ghost digits = unsigned_part(text@);
    assert(digits.len() == text@.len() - first);
    assert(forall|i: int| 0 <= i < digits.len() ==> #[trigger] digits[i] == text@[i + first]);
    if text.len() == first {
        return None;
    }
    let mut value: u64 = 0;
    let mut at: usize = first;
    assert(digits.take(0) =~= Seq::<u8>::empty());
    while at < text.len()
        invariant
            first <= at <= text@.len(),
            digits == unsigned_part(text@),
            digits.len() == text@.len() - first,
            forall|i: int| 0 <= i < digits.len() ==> #[trigger] digits[i] == text@[i + first],
            forall|i: int| 0 <= i < at - first ==> is_digit(#[trigger] digits[i]),
            value == digits_value(digits.take(at - first)),
        decreases text@.len() - at,
    {
        let byte: u8 = text[at];
        let ghost k = at - first;
        assert(digits[k] == byte);
        if byte < 0x30 || byte > 0x39 {
            assert(!is_digit(digits[k]));
            return None;
        }
        let next: u128 = value as u128 * 10 + (byte - 0x30) as u128;
        proof {
            let longer = digits.take(k + 1);
            assert(longer.drop_last() =~= digits.take(k));
            assert(longer.last() == byte);
            assert(digits_value(longer) == next);
        }
        if next > u64::MAX as u128 {
            proof {
                if forall|i: int| 0 <= i < digits.len() ==> is_digit(#[trigger] digits[i]) {
                    lemma_digits_grow(digits, k + 1);
                }
            }
            return None;
        }
        value = next as u64;
        at = at + 1;
    }
    assert(digits.take(digits.len() as int) =~= digits);
    Some(value)
}

/// Parses a numeric or textual job identifier.
pub fn parse_job_id(value: &JobIdValue) -> (id: Option<u64>)
    ensures
        id == id_of(*value),
{
    match value {
        JobIdValue::Number { whole, value } => if *whole {
            Some(*value)
        } else {
            None
        },
        JobIdValue::Text(text) => parse_number(text),
        JobIdValue::Unreadable => None,
    }
}

/// The reply to a call about a job that cannot be found.
pub open spec fn refused<T>(job_id: Option<u64>, error: JobError) -> Response<T> {
    Response { status: Status::Error, job_id, path: None, actions: None, error: Some(error) }
}

/// Active jobs by their identifiers.
pub struct Registry {
    /// Active single-level jobs.
    pub jobs: HashMap<u64, SearchJob>,
    /// Active multi-level jobs.
    pub multi_jobs: HashMap<u64, MultiSearchJob>,
    /// Identifier of the next job to be started.
    pub next_id: u64,
}

/// A job taken out of the registry.
pub enum Claim {
    /// A single-level job.
    Single(SearchJob),
    /// A multi-level job.
    Multi(MultiSearchJob),
    /// No live job has the identifier.
    Unknown,
}

/// What a registry holds.
#[verifier::ext_equal]
pub struct Holdings {
    /// Active single-level jobs.
    pub jobs: Map<u64, SearchJob>,
    /// Active multi-level jobs.
    pub multi_jobs: Map<u64, MultiSearchJob>,
    /// Identifier of the next job to be started.
    pub next_id: u64,
}

/// The job that an identifier claims at a time: a live single-level one, else a live multi-level
/// one.
pub open spec fn claimed(holdings: Holdings, id: u64, now: u128) -> Claim {
    let live = live_jobs(holdings.jobs, now);
    let live_multi = live_multi_jobs(holdings.multi_jobs, now);
    if live.contains_key(id) {
        Claim::Single(live[id])
    } else if live_multi.contains_key(id) {
        Claim::Multi(live_multi[id])
    } else {
        Claim::Unknown
    }
}

/// What is left after a claim. Expired jobs are gone, multi-level ones only where the claim got
/// as far as them.
pub open spec fn left_over(holdings: Holdings, id: u64, now: u128) -> Holdings {
    let live = live_jobs(holdings.jobs, now);
    if live.contains_key(id) {
        Holdings { jobs: live.remove(id), ..holdings }
    } else {
        Holdings {
            jobs: live,
            multi_jobs: live_multi_jobs(holdings.multi_jobs, now).remove(id),
            ..holdings
        }
    }
}

/// What a registry holds at first.
pub open spec fn nothing_held() -> Holdings {
    Holdings { jobs: Map::empty(), multi_jobs: Map::empty(), next_id: 1 }
}

/// What can happen to a registry.
pub enum Event {
    /// An identifier is handed out for a job that is being started.
    Issue,
    /// A single-level job that was just started is put in.
    Register(u64, SearchJob, u128),
    /// A multi-level job that was just started is put in.
    RegisterMulti(u64, MultiSearchJob, u128),
    /// A single-level job that was resumed is put back.
    PutBack(u64, SearchJob),
    /// A multi-level job that was resumed is put back.
    PutBackMulti(u64, MultiSearchJob),
    /// A job is taken out, to be resumed or for good.
    Take(u64, u128),
}

/// What a registry holds after an event. Starting a job clears out expired ones of its kind.
pub open spec fn effect(holdings: Holdings, event: Event) -> Holdings {
    match event {
        Event::Issue => Holdings {
            next_id: if holdings.next_id == u64::MAX {
                0
            } else {
                (holdings.next_id + 1) as u64
            },
            ..holdings
        },
        Event::Register(id, job, now) => Holdings {
            jobs: live_jobs(holdings.jobs, now).insert(id, job),
            ..holdings
        },
        Event::RegisterMulti(id, job, now) => Holdings {
            multi_jobs: live_multi_jobs(holdings.multi_jobs, now).insert(id, job),
            ..holdings
        },
        Event::PutBack(id, job) => Holdings { jobs: holdings.jobs.insert(id, job), ..holdings },
        Event::PutBackMulti(id, job) => Holdings {
            multi_jobs: holdings.multi_jobs.insert(id, job),
            ..holdings
        },
        Event::Take(id, now) => left_over(holdings, id, now),
    }
}

impl View for Registry {
    type V = Holdings;

    open spec fn view(&self) -> Holdings {
        Holdings { jobs: self.jobs@, multi_jobs: self.multi_jobs@, next_id: self.next_id }
    }
}

impl Registry {
    /// Creates an empty registry.
    pub fn new() -> (registry: Self)
        ensures
            registry@ == nothing_held(),
    {
        Registry { jobs: HashMap::new(), multi_jobs: HashMap::new(), next_id: 1 }
    }

    /// Hands out the identifier of a job that is being started.
    pub fn issue_id(&mut self) -> (id: u64)
        ensures
            id == old(self)@.next_id,
            final(self)@ == effect(old(self)@, Event::Issue),
    {
        let id: u64 = self.next_id;
        self.next_id = self.next_id.wrapping_add(1);
        id
    }

    /// Takes a job out.
    pub fn claim(&mut self, id: u64, now: u128) -> (claim: Claim)
        ensures
            claim == claimed(old(self)@, id, now),
            final(self)@ == left_over(old(self)@, id, now),
    {
        prune_expired_jobs(&mut self.jobs, now);
        if let Some(job) = self.jobs.remove(&id) {
            return Claim::Single(job);
        }
        assert(self.jobs@ == live_jobs(old(self)@.jobs, now)) by {
            let live = live_jobs(old(self)@.jobs, now);
            assert(live.remove(id) =~= live);
        }
        prune_expired_multi_jobs(&mut self.multi_jobs, now);
        match self.multi_jobs.remove(&id) {
            Some(job) => Claim::Multi(job),
            None => Claim::Unknown,
        }
    }

    /// Puts in a single-level job that was just started.
    pub fn register(&mut self, id: u64, job: SearchJob, now: u128)
        ensures
            final(self)@ == effect(old(self)@, Event::Register(id, job, now)),
    {
        prune_expired_jobs(&mut self.jobs, now);
        self.jobs.insert(id, job);
    }

    /// Puts in a multi-level job that was just started.
    pub fn register_multi(&mut self, id: u64, job: MultiSearchJob, now: u128)
        ensures
            final(self)@ == effect(old(self)@, Event::RegisterMulti(id, job, now)),
    {
        prune_expired_multi_jobs(&mut self.multi_jobs, now);
        self.multi_jobs.insert(id, job);
    }

    /// Puts back a single-level job that was resumed and goes on.
    pub fn put_back(&mut self, id: u64, job: SearchJob)
        ensures
            final(self)@ == effect(old(self)@, Event::PutBack(id, job)),
    {
        self.jobs.insert(id, job);
    }

    /// Puts back a multi-level job that was resumed and goes on.
    pub fn put_back_multi(&mut self, id: u64, job: MultiSearchJob)
        ensures
            final(self)@ == effect(old(self)@, Event::PutBackMulti(id, job)),
    {
        self.multi_jobs.insert(id, job);
    }

    /// Finds the job to resume, or the reply where there is none.
    pub fn resume<T>(&mut self, id: &JobIdValue, now: u128) -> (found: Result<
        (u64, Claim),
        Response<T>,
    >)
        ensures
            match id_of(*id) {
                None => {
                    &&& final(self)@ == old(self)@
                    &&& found matches Err(response) && response == refused::<T>(
                        None,
                        JobError::InvalidJobId,
                    )
                },
                Some(job_id) => {
                    &&& final(self)@ == left_over(old(self)@, job_id, now)
                    &&& if claimed(old(self)@, job_id, now) is Unknown {
                        found matches Err(response) && response == refused::<T>(
                            Some(job_id),
                            JobError::UnknownJob,
                        )
                    } else {
                        found == Ok::<(u64, Claim), Response<T>>(
                            (job_id, claimed(old(self)@, job_id, now)),
                        )
                    }
                },
            },
    {
        let job_id: u64 = match parse_job_id(id) {
            Some(job_id) => job_id,
            None => {
                return Err(
                    status_response(Status::Error, None, None, Some(JobError::InvalidJobId)),
                );
            },
        };
        match self.claim(job_id, now) {
            Claim::Unknown => Err(
                status_response(Status::Error, Some(job_id), None, Some(JobError::UnknownJob)),
            ),
            claim => Ok((job_id, claim)),
        }
    }

    /// Cancels a job.
    pub fn cancel<T>(&mut self, id: &JobIdValue, now: u128) -> (response: Response<T>)
        ensures
            match id_of(*id) {
                None => {
                    &&& final(self)@ == old(self)@
                    &&& response == refused::<T>(None, JobError::InvalidJobId)
                },
                Some(job_id) => {
                    &&& final(self)@ == left_over(old(self)@, job_id, now)
                    &&& response == if claimed(old(self)@, job_id, now) is Unknown {
                        refused::<T>(Some(job_id), JobError::UnknownJob)
                    } else {
                        Response {
                            status: Status::Cancelled,
                            job_id: Some(job_id),
                            path: None,
                            actions: None,
                            error: None,
                        }
                    }
                },
            },
    {
        let job_id: u64 = match parse_job_id(id) {
            Some(job_id) => job_id,
            None => {
                return status_response(Status::Error, None, None, Some(JobError::InvalidJobId));
            },
        };
        match self.claim(job_id, now) {
            Claim::Unknown => status_response(
                Status::Error,
                Some(job_id),
                None,
                Some(JobError::UnknownJob),
            ),
            _ => status_response(Status::Cancelled, Some(job_id), None, None),
        }
    }
}

/// A registry together with the jobs that are out of it.
#[verifier::ext_equal]
pub struct Ledger {
    /// What the registry holds.
    pub held: Holdings,
    /// Jobs that were given an identifier and have not been put in.
    pub started: Set<u64>,
    /// Single-level jobs that were taken out and have not been put back.
    pub taken: Set<u64>,
    /// Multi-level jobs that were taken out and have not been put back.
    pub taken_multi: Set<u64>,
}

/// The ledger before anything has happened.
pub open spec fn blank_ledger() -> Ledger {
    Ledger {
        held: nothing_held(),
        started: Set::empty(),
        taken: Set::empty(),
        taken_multi: Set::empty(),
    }
}

/// The ledger after an event.
pub open spec fn entered(ledger: Ledger, event: Event) -> Ledger {
    let held = effect(ledger.held, event);
    match event {
        Event::Issue => Ledger {
            held,
            started: ledger.started.insert(ledger.held.next_id),
            ..ledger
        },
        Event::Register(id, _, _) => Ledger { held, started: ledger.started.remove(id), ..ledger },
        Event::RegisterMulti(id, _, _) => Ledger {
            held,
            started: ledger.started.remove(id),
            ..ledger
        },
        Event::PutBack(id, _) => Ledger { held, taken: ledger.taken.remove(id), ..ledger },
        Event::PutBackMulti(id, _) => Ledger {
            held,
            taken_multi: ledger.taken_multi.remove(id),
            ..ledger
        },
        Event::Take(id, now) => match claimed(ledger.held, id, now) {
            Claim::Single(_) => Ledger { held, taken: ledger.taken.insert(id), ..ledger },
            Claim::Multi(_) => Ledger { held, taken_multi: ledger.taken_multi.insert(id), ..ledger },
            Claim::Unknown => Ledger { held, ..ledger },
        },
    }
}

/// Whether an event is in order: only a job that was started is put in, only one that was taken out
/// is put back, and identifiers have not run out.
pub open spec fn in_order(ledger: Ledger, event: Event) -> bool {
    match event {
        Event::Issue => ledger.held.next_id < u64::MAX,
        Event::Register(id, _, _) => ledger.started.contains(id),
        Event::RegisterMulti(id, _, _) => ledger.started.contains(id),
        Event::PutBack(id, _) => ledger.taken.contains(id),
        Event::PutBackMulti(id, _) => ledger.taken_multi.contains(id),
        Event::Take(_, _) => true,
    }
}

/// The ledger after a number of events.
pub open spec fn after_events(ledger: Ledger, events: Seq<Event>) -> Ledger
    decreases events.len(),
{
    if events.len() == 0 {
        ledger
    } else {
        entered(after_events(ledger, events.drop_last()), events.last())
    }
}

/// Whether each of a number of events is in order when it happens.
pub open spec fn all_in_order(ledger: Ledger, events: Seq<Event>) -> bool
    decreases events.len(),
{
    events.len() > 0 ==> all_in_order(ledger, events.drop_last()) && in_order(
        after_events(ledger, events.drop_last()),
        events.last(),
    )
}

/// Whether a registry has a job with an identifier, alive or not.
pub open spec fn holds(holdings: Holdings, id: u64) -> bool {
    holdings.jobs.contains_key(id) || holdings.multi_jobs.contains_key(id)
}

/// Whether each identifier was handed out and stands for one job at most, wherever that is.
pub open spec fn one_job_per_id(ledger: Ledger) -> bool {
    forall|id: u64|
        {
            let single = #[trigger] ledger.held.jobs.contains_key(id);
            let multi = ledger.held.multi_jobs.contains_key(id);
            let started = ledger.started.contains(id);
            let taken = ledger.taken.contains(id);
            let taken_multi = ledger.taken_multi.contains(id);
            &&& single ==> !multi && !started && !taken && !taken_multi
            &&& multi ==> !started && !taken && !taken_multi
            &&& started ==> !taken && !taken_multi
            &&& taken ==> !taken_multi
            &&& single || multi || started || taken || taken_multi ==> id < ledger.held.next_id
        }
}

proof fn lemma_event_keeps_one_job_per_id(ledger: Ledger, event: Event)
    requires
        one_job_per_id(ledger),
        in_order(ledger, event),
    ensures
        one_job_per_id(entered(ledger, event)),
{
    let after = entered(ledger, event);
    assert forall|id: u64|
        {
            let single = #[trigger] after.held.jobs.contains_key(id);
            let multi = after.held.multi_jobs.contains_key(id);
            let started = after.started.contains(id);
            let taken = after.taken.contains(id);
            let taken_multi = after.taken_multi.contains(id);
            &&& single ==> !multi && !started && !taken && !taken_multi
            &&& multi ==> !started && !taken && !taken_multi
            &&& started ==> !taken && !taken_multi
            &&& taken ==> !taken_multi
            &&& single || multi || started || taken || taken_multi ==> id < after.held.next_id
        } by {
        let before = ledger.held.jobs.contains_key(id);
        let issued = ledger.held.jobs.contains_key(ledger.held.next_id);
    }
}

/// Whatever happens in order, an identifier never comes to stand for two jobs.
pub proof fn law_one_job_per_id(events: Seq<Event>)
    requires
        all_in_order(blank_ledger(), events),
    ensures
        one_job_per_id(after_events(blank_ledger(), events)),
    decreases events.len(),
{
    if events.len() > 0 {
        law_one_job_per_id(events.drop_last());
        lemma_event_keeps_one_job_per_id(
            after_events(blank_ledger(), events.drop_last()),
            events.last(),
        );
    }
}

/// Whether a job is over: it has an identifier, and is neither held nor about to be put in.
spec fn over(ledger: Ledger, id: u64) -> bool {
    &&& id < ledger.held.next_id
    &&& !holds(ledger.held, id)
    &&& !ledger.started.contains(id)
}

proof fn lemma_job_stays_over(ledger: Ledger, events: Seq<Event>, id: u64)
    requires
        over(ledger, id),
        all_in_order(ledger, events),
        forall|i: int|
            0 <= i < events.len() ==> !puts_back(#[trigger] events[i], id),
    ensures
        over(after_events(ledger, events), id),
    decreases events.len(),
{
    if events.len() > 0 {
        let before = events.drop_last();
        assert forall|i: int| 0 <= i < before.len() implies !puts_back(
            #[trigger] before[i],
            id,
        ) by {
            assert(before[i] == events[i]);
        }
        lemma_job_stays_over(ledger, before, id);
        assert(!puts_back(events[events.len() - 1], id));
    }
}

/// Whether an event puts a job back.
pub open spec fn puts_back(event: Event, id: u64) -> bool {
    match event {
        Event::PutBack(other, _) => other == id,
        Event::PutBackMulti(other, _) => other == id,
        _ => false,
    }
}

/// A job that was cancelled, that was resumed and did not go on, or that had been idle for too long
/// when it was asked for, is unknown ever after. `first` is what happened before it was taken out,
/// `afterwards` what happens later on; that the job is not put back is what it means to be over.
pub proof fn law_finished_job_is_unknown(
    first: Seq<Event>,
    id: u64,
    now: u128,
    afterwards: Seq<Event>,
    later: u128,
)
    requires
        all_in_order(blank_ledger(), first),
        holds(after_events(blank_ledger(), first).held, id),
        all_in_order(entered(after_events(blank_ledger(), first), Event::Take(id, now)), afterwards),
        forall|i: int| 0 <= i < afterwards.len() ==> !puts_back(#[trigger] afterwards[i], id),
    ensures
        claimed(
            after_events(
                entered(after_events(blank_ledger(), first), Event::Take(id, now)),
                afterwards,
            ).held,
            id,
            later,
        ) is Unknown,
{
    let before = after_events(blank_ledger(), first);
    law_one_job_per_id(first);
    assert(before.held.jobs.contains_key(id) || before.held.multi_jobs.contains_key(id));
    let after = entered(before, Event::Take(id, now));
    let single = before.held.jobs.contains_key(id);
    assert(over(after, id));
    lemma_job_stays_over(after, afterwards, id);
}

/// When a job in a registry was last resumed.
pub open spec fn last_touched(holdings: Holdings, id: u64) -> u128 {
    if holdings.jobs.contains_key(id) {
        holdings.jobs[id].last_touched
    } else {
        holdings.multi_jobs[id].last_touched
    }
}

proof fn lemma_job_waits_or_is_over(ledger: Ledger, events: Seq<Event>, id: u64)
    requires
        one_job_per_id(ledger),
        holds(ledger.held, id),
        all_in_order(ledger, events),
        forall|i: int| 0 <= i < events.len() ==> !puts_back(#[trigger] events[i], id),
    ensures
        one_job_per_id(after_events(ledger, events)),
        ({
            let after = after_events(ledger, events);
            over(after, id) || (holds(after.held, id) && last_touched(after.held, id)
                == last_touched(ledger.held, id))
        }),
    decreases events.len(),
{
    if events.len() > 0 {
        let before = events.drop_last();
        assert forall|i: int| 0 <= i < before.len() implies !puts_back(
            #[trigger] before[i],
            id,
        ) by {
            assert(before[i] == events[i]);
        }
        lemma_job_waits_or_is_over(ledger, before, id);
        assert(!puts_back(events[events.len() - 1], id));
        let reached = after_events(ledger, before);
        lemma_event_keeps_one_job_per_id(reached, events.last());
        let single = reached.held.jobs.contains_key(id);
    }
}

/// A job that has been idle for too long is unknown, whatever has happened to other jobs in the
/// meantime and whether or not the expired job was cleared out.
pub proof fn law_idle_job_is_unknown(
    first: Seq<Event>,
    id: u64,
    afterwards: Seq<Event>,
    later: u128,
)
    requires
        all_in_order(blank_ledger(), first),
        holds(after_events(blank_ledger(), first).held, id),
        all_in_order(after_events(blank_ledger(), first), afterwards),
        forall|i: int| 0 <= i < afterwards.len() ==> !puts_back(#[trigger] afterwards[i], id),
        !alive(last_touched(after_events(blank_ledger(), first).held, id), later),
    ensures
        claimed(
            after_events(after_events(blank_ledger(), first), afterwards).held,
            id,
            later,
        ) is Unknown,
{
    let before = after_events(blank_ledger(), first);
    law_one_job_per_id(first);
    lemma_job_waits_or_is_over(before, afterwards, id);
    let after = after_events(before, afterwards);
    let single = after.held.jobs.contains_key(id);
}

/// A job in a registry can be resumed exactly as long as it has not been idle for too long, as long
/// as each identifier stands for one job.
pub proof fn law_job_can_be_resumed_while_alive(ledger: Ledger, id: u64, now: u128)
    requires
        one_job_per_id(ledger),
    ensures
        ledger.held.jobs.contains_key(id) ==> claimed(ledger.held, id, now) == if alive(
            ledger.held.jobs[id].last_touched,
            now,
        ) {
            Claim::Single(ledger.held.jobs[id])
        } else {
            Claim::Unknown
        },
        ledger.held.multi_jobs.contains_key(id) ==> claimed(ledger.held, id, now) == if alive(
            ledger.held.multi_jobs[id].last_touched,
            now,
        ) {
            Claim::Multi(ledger.held.multi_jobs[id])
        } else {
            Claim::Unknown
        },
{
    let single = ledger.held.jobs.contains_key(id);
}

/// Claiming one job leaves every other live job where it was.
pub proof fn law_claim_leaves_others(holdings: Holdings, id: u64, other: u64, now: u128)
    requires
        other != id,
    ensures
        claimed(left_over(holdings, id, now), other, now) == claimed(holdings, other, now),
{
    let left = left_over(holdings, id, now);
    let live = live_jobs(holdings.jobs, now);
    assert(live_jobs(left.jobs, now).contains_key(other) == live.contains_key(other));
}

/// A job is alive as long as less than thirty seconds have passed since it was last active.
pub proof fn law_jobs_live_for_thirty_seconds(last_touched: u128, now: u128)
    ensures
        alive(last_touched, now) <==> now < last_touched + 30_000_000_000,
{
}

/// Pruning keeps the jobs that are alive, as they are, and no others.
pub proof fn law_pruning_keeps_what_is_alive(
    jobs: Map<u64, SearchJob>,
    multi_jobs: Map<u64, MultiSearchJob>,
    now: u128,
    id: u64,
)
    ensures
        live_jobs(jobs, now).contains_key(id) <==> jobs.contains_key(id) && now
            < jobs[id].last_touched + 30_000_000_000,
        live_jobs(jobs, now).contains_key(id) ==> live_jobs(jobs, now)[id] == jobs[id],
        live_multi_jobs(multi_jobs, now).contains_key(id) <==> multi_jobs.contains_key(id) && now
            < multi_jobs[id].last_touched + 30_000_000_000,
        live_multi_jobs(multi_jobs, now).contains_key(id) ==> live_multi_jobs(multi_jobs, now)[id]
            == multi_jobs[id],
{
}

/// An identifier finds the single-level job that is held under it if that is alive, else the
/// multi-level one if that is, and nothing otherwise.
pub proof fn law_identifier_finds_its_live_job(holdings: Holdings, id: u64, now: u128)
    ensures
        match claimed(holdings, id, now) {
            Claim::Single(job) => {
                &&& holdings.jobs.contains_key(id)
                &&& holdings.jobs[id] == job
                &&& now < job.last_touched + 30_000_000_000
            },
            Claim::Multi(job) => {
                &&& holdings.multi_jobs.contains_key(id)
                &&& holdings.multi_jobs[id] == job
                &&& now < job.last_touched + 30_000_000_000
            },
            Claim::Unknown => true,
        },
        holdings.jobs.contains_key(id) && now < holdings.jobs[id].last_touched + 30_000_000_000
            ==> claimed(holdings, id, now) is Single,
        holdings.multi_jobs.contains_key(id) && now < holdings.multi_jobs[id].last_touched
            + 30_000_000_000 ==> claimed(holdings, id, now) !is Unknown,
{
}

/// Whether an event itself puts a job in under an identifier.
pub open spec fn puts_in(event: Event, id: u64) -> bool {
    match event {
        Event::Register(other, _, _) => other == id,
        Event::RegisterMulti(other, _, _) => other == id,
        Event::PutBack(other, _) => other == id,
        Event::PutBackMulti(other, _) => other == id,
        _ => false,
    }
}

/// Whether an event happens no later than a time, as far as it has one.
pub open spec fn no_later(event: Event, now: u128) -> bool {
    match event {
        Event::Register(_, _, at) => at <= now,
        Event::RegisterMulti(_, _, at) => at <= now,
        Event::Take(_, at) => at <= now,
        _ => true,
    }
}

/// Nothing but taking a job out loses it while it is alive: whatever else happens, its identifier
/// finds the very job that it found before.
pub proof fn law_no_event_loses_a_live_job(
    holdings: Holdings,
    event: Event,
    id: u64,
    now: u128,
)
    requires
        claimed(holdings, id, now) !is Unknown,
        !puts_in(event, id),
        no_later(event, now),
        event matches Event::Take(other, _) ==> other != id,
    ensures
        claimed(effect(holdings, event), id, now) == claimed(holdings, id, now),
{
    let after = effect(holdings, event);
    assert(holdings.jobs.contains_key(id) ==> (live_jobs(after.jobs, now).contains_key(id)
        == live_jobs(holdings.jobs, now).contains_key(id)));
}

/// A job that is put in is held under its identifier, as it is, and the identifier finds it until it
/// has been idle for thirty seconds. Every other identifier holds what it held, but for the jobs of the
/// same kind that have been idle for too long when one is started.
pub proof fn law_job_put_in_is_held(
    holdings: Holdings,
    id: u64,
    job: SearchJob,
    multi_job: MultiSearchJob,
    at: u128,
    now: u128,
    other: u64,
)
    ensures
        ({
            let registered = effect(holdings, Event::Register(id, job, at));
            let put_back = effect(holdings, Event::PutBack(id, job));
            &&& registered.jobs.contains_key(id) && registered.jobs[id] == job
            &&& put_back.jobs.contains_key(id) && put_back.jobs[id] == job
            &&& now < job.last_touched + 30_000_000_000 ==> {
                &&& claimed(registered, id, now) == Claim::Single(job)
                &&& claimed(put_back, id, now) == Claim::Single(job)
            }
            &&& registered.multi_jobs == holdings.multi_jobs
            &&& put_back.multi_jobs == holdings.multi_jobs
            &&& other != id ==> (registered.jobs.contains_key(other) <==> {
                &&& holdings.jobs.contains_key(other)
                &&& at < holdings.jobs[other].last_touched + 30_000_000_000
            })
            &&& other != id && registered.jobs.contains_key(other) ==> registered.jobs[other]
                == holdings.jobs[other]
            &&& other != id ==> put_back.jobs.contains_key(other) == holdings.jobs.contains_key(
                other,
            ) && put_back.jobs[other] == holdings.jobs[other]
        }),
        ({
            let registered = effect(holdings, Event::RegisterMulti(id, multi_job, at));
            let put_back = effect(holdings, Event::PutBackMulti(id, multi_job));
            &&& registered.multi_jobs.contains_key(id) && registered.multi_jobs[id] == multi_job
            &&& put_back.multi_jobs.contains_key(id) && put_back.multi_jobs[id] == multi_job
            &&& now < multi_job.last_touched + 30_000_000_000 && !holdings.jobs.contains_key(id)
                ==> {
                &&& claimed(registered, id, now) == Claim::Multi(multi_job)
                &&& claimed(put_back, id, now) == Claim::Multi(multi_job)
            }
            &&& registered.jobs == holdings.jobs
            &&& put_back.jobs == holdings.jobs
            &&& other != id ==> (registered.multi_jobs.contains_key(other) <==> {
                &&& holdings.multi_jobs.contains_key(other)
                &&& at < holdings.multi_jobs[other].last_touched + 30_000_000_000
            })
            &&& other != id && registered.multi_jobs.contains_key(other)
                ==> registered.multi_jobs[other] == holdings.multi_jobs[other]
            &&& other != id ==> put_back.multi_jobs.contains_key(other)
                == holdings.multi_jobs.contains_key(other) && put_back.multi_jobs[other]
                == holdings.multi_jobs[other]
        }),
{
}

/// A job that is taken out is gone, and with it the single-level jobs that have been idle for too long
/// and, where no single-level job was found, the multi-level ones; all others stay as they are.
pub proof fn law_job_taken_out_is_gone(holdings: Holdings, id: u64, now: u128, other: u64)
    ensures
        ({
            let after = effect(holdings, Event::Take(id, now));
            &&& after == left_over(holdings, id, now)
            &&& after.jobs.contains_key(other) <==> {
                &&& other != id
                &&& holdings.jobs.contains_key(other)
                &&& now < holdings.jobs[other].last_touched + 30_000_000_000
            }
            &&& claimed(holdings, id, now) is Single ==> after.multi_jobs == holdings.multi_jobs
            &&& claimed(holdings, id, now) !is Single ==> (after.multi_jobs.contains_key(other)
                <==> {
                &&& other != id
                &&& holdings.multi_jobs.contains_key(other)
                &&& now < holdings.multi_jobs[other].last_touched + 30_000_000_000
            })
            &&& after.next_id == holdings.next_id
            &&& after.jobs.contains_key(other) ==> holdings.jobs.contains_key(other)
                && after.jobs[other] == holdings.jobs[other]
            &&& after.multi_jobs.contains_key(other) ==> holdings.multi_jobs.contains_key(other)
                && after.multi_jobs[other] == holdings.multi_jobs[other]
        }),
{
}

/// Identifiers are handed out one after the other from one on, and nothing but handing one out
/// changes which is next.
pub proof fn law_identifiers_are_counted_up(holdings: Holdings, event: Event)
    ensures
        nothing_held().next_id == 1,
        effect(holdings, event).next_id == if event is Issue && holdings.next_id < u64::MAX {
            holdings.next_id + 1
        } else if event is Issue {
            0
        } else {
            holdings.next_id as int
        },
        event is Issue ==> effect(holdings, event).jobs == holdings.jobs && effect(
            holdings,
            event,
        ).multi_jobs == holdings.multi_jobs,
{
}

/// A reply tells how the search stands: it goes on, it has ended without a path, or it is complete.
/// The job is kept and named exactly as long as it goes on, and a path is given exactly where it has
/// ended: an empty one where there is none.
pub proof fn law_reply_tells_how_the_search_stands<T>(
    job: SearchJob,
    job_id: u64,
    outcome: JobOutcome<T>,
    kept: Option<SearchJob>,
    response: Response<T>,
)
    requires
        sliced(job, job_id, outcome, kept, response),
    ensures
        outcome is InProgress <==> response.status == Status::InProgress,
        outcome is NoPath <==> response.status == Status::NoPath,
        outcome is Found <==> response.status == Status::Complete,
        outcome is InProgress <==> kept is Some,
        outcome is InProgress <==> response.job_id is Some,
        outcome is InProgress <==> response.path is None,
        kept matches Some(same) ==> same == job,
        response.job_id matches Some(id) ==> id == job_id,
        outcome is NoPath ==> response.path->0@.len() == 0,
        outcome matches JobOutcome::Found(path) ==> response.path->0@ == path@,
        response.actions is None,
        response.error is None,
{
}

/// A reply tells how the search stands: it goes on, the topology has changed, it has ended without a
/// path, or it is complete. The job is kept exactly as long as it goes on; path and actions are given
/// exactly where it has ended by itself.
pub proof fn law_reply_tells_how_the_layered_search_stands<T>(
    job: MultiSearchJob,
    job_id: u64,
    outcome: MultiJobOutcome<T>,
    kept: Option<MultiSearchJob>,
    response: Response<T>,
)
    requires
        multi_sliced(job, job_id, outcome, kept, response),
    ensures
        outcome is InProgress <==> response.status == Status::InProgress,
        outcome is Stale <==> response.status == Status::StaleTopology,
        outcome is NoPath <==> response.status == Status::NoPath,
        outcome is Found <==> response.status == Status::Complete,
        outcome is InProgress <==> kept is Some,
        outcome is InProgress || outcome is Stale <==> response.job_id is Some,
        outcome is InProgress || outcome is Stale <==> response.path is None,
        outcome is InProgress || outcome is Stale <==> response.actions is None,
        kept matches Some(same) ==> same == job,
        response.job_id matches Some(id) ==> id == job_id,
        outcome is NoPath ==> response.path->0@.len() == 0 && response.actions->0@.len() == 0,
        outcome matches MultiJobOutcome::Found(path, taken) ==> response.path->0@ == path@
            && response.actions->0@ == taken@,
        response.error is None,
{
}

/// The blocking call gives no reply exactly as long as the search goes on, the path where there is
/// one, and an empty one otherwise.
pub proof fn law_blocking_call_returns_the_path<T>(
    outcome: JobOutcome<T>,
    reply: Option<Vec<T>>,
    multi_outcome: MultiJobOutcome<T>,
    multi_reply: Option<Vec<T>>,
)
    requires
        blocking(outcome, reply),
        multi_blocking(multi_outcome, multi_reply),
    ensures
        reply is None <==> outcome is InProgress,
        outcome matches JobOutcome::Found(path) ==> reply->0@ == path@,
        outcome is NoPath ==> reply->0@.len() == 0,
        multi_reply is None <==> multi_outcome is InProgress,
        multi_outcome matches MultiJobOutcome::Found(path, _) ==> multi_reply->0@ == path@,
        multi_outcome is NoPath || multi_outcome is Stale ==> multi_reply->0@.len() == 0,
{
}

/// A refusal is an error that names the job, where there is one, and what is wrong, and gives no
/// path.
pub proof fn law_refusal_names_what_is_wrong<T>(job_id: Option<u64>, error: JobError)
    ensures
        ({
            let response = refused::<T>(job_id, error);
            &&& response.status == Status::Error
            &&& response.job_id == job_id
            &&& response.path is None
            &&& response.actions is None
            &&& response.error == Some(error)
        }),
{
}

/// The decimal digits of a number.
pub open spec fn decimal(number: nat) -> Seq<u8>
    decreases number,
{
    if number < 10 {
        seq![(48 + number) as u8]
    } else {
        decimal(number / 10).push((48 + number % 10) as u8)
    }
}

proof fn lemma_decimal(number: nat)
    ensures
        decimal(number).len() > 0,
        forall|i: int| 0 <= i < decimal(number).len() ==> 48 <= #[trigger] decimal(number)[i] <= 57,
        digits_value(decimal(number)) == number,
    decreases number,
{
    reveal_with_fuel(digits_value, 2);
    if number >= 10 {
        lemma_decimal(number / 10);
        let digits = decimal(number);
        let most = decimal(number / 10);
        assert(digits.drop_last() =~= most);
        assert forall|i: int| 0 <= i < digits.len() implies 48 <= #[trigger] digits[i] <= 57 by {
            if i < most.len() {
                assert(digits[i] == most[i]);
            }
        }
    } else {
        assert(decimal(number).drop_last() =~= Seq::<u8>::empty());
    }
}

/// An identifier is read back from its decimal text, with or without a plus sign before it. Text that
/// has nothing but a sign, or holds anything else than digits, names no job, nor does a number that is
/// not whole; a whole one names the job with that identifier.
pub proof fn law_identifiers_are_read_back(id: u64, text: Vec<u8>, at: int)
    ensures
        text@ == decimal(id as nat) ==> id_of(JobIdValue::Text(text)) == Some(id),
        text@ == seq![43u8] + decimal(id as nat) ==> id_of(JobIdValue::Text(text)) == Some(id),
        text@.len() == 0 ==> id_of(JobIdValue::Text(text)) is None,
        text@ == seq![43u8] ==> id_of(JobIdValue::Text(text)) is None,
        0 <= at < text@.len() && !(48 <= text@[at] <= 57) && !(at == 0 && text@[at] == 43)
            ==> id_of(JobIdValue::Text(text)) is None,
        id_of(JobIdValue::Number { whole: true, value: id }) == Some(id),
        id_of(JobIdValue::Number { whole: false, value: id }) is None,
        id_of(JobIdValue::Unreadable) is None,
{
    let digits = decimal(id as nat);
    lemma_decimal(id as nat);
    assert(digits[0] != 43);
    let signed = seq![43u8] + digits;
    assert(signed.subrange(1, signed.len() as int) =~= digits);
    if 0 <= at < text@.len() && !(48 <= text@[at] <= 57) && !(at == 0 && text@[at] == 43) {
        let part = unsigned_part(text@);
        if text@[0] == 43 {
            assert(part[at - 1] == text@[at]);
        } else {
            assert(part[at] == text@[at]);
        }
    }
}

/// Each digit that is added to a text counts one and makes the others count ten times as much; where
/// the number outgrows 64 bits, the text names no job.
pub proof fn law_each_digit_counts(digits: Seq<u8>, digit: u8, number: nat)
    requires
        48 <= digit <= 57,
        digits.len() > 0,
        forall|i: int| 0 <= i < digits.len() ==> 48 <= #[trigger] digits[i] <= 57,
    ensures
        text_value(seq![digit]) == Some((digit - 48) as u64),
        text_value(digits) matches Some(value) ==> text_value(digits.push(digit)) == if value * 10
            + (digit - 48) <= u64::MAX {
            Some((value * 10 + (digit - 48)) as u64)
        } else {
            None
        },
        text_value(digits) is None ==> text_value(digits.push(digit)) is None,
        number > u64::MAX ==> text_value(decimal(number)) is None,
{
    reveal_with_fuel(digits_value, 2);
    let longer = digits.push(digit);
    assert(longer.drop_last() =~= digits);
    assert forall|i: int| 0 <= i < longer.len() implies is_digit(#[trigger] longer[i]) by {
        if i < digits.len() {
            assert(longer[i] == digits[i]);
        }
    }
    assert(forall|i: int| 0 <= i < digits.len() ==> is_digit(#[trigger] digits[i]));
    assert(seq![digit].drop_last() =~= Seq::<u8>::empty());
    lemma_decimal(number);
}

/// A path is located exactly where each of its turfs was, and then consists of them in order.
pub proof fn law_paths_are_located_whole<T>(turfs: Seq<Option<T>>, path: Seq<T>)
    ensures
        one_is_missing(turfs) <==> exists|i: int| 0 <= i < turfs.len() && #[trigger] turfs[i]
            == None::<T>,
        are_located(turfs, path) <==> turfs == path.map_values(|turf: T| Some(turf)),
        turfs.len() == 0 ==> !one_is_missing(turfs),
{
    let all = path.map_values(|turf: T| Some(turf));
    if are_located(turfs, path) {
        assert(turfs =~= all);
    }
    if turfs == all {
        assert(turfs.len() == path.len());
        assert forall|i: int| 0 <= i < turfs.len() implies #[trigger] turfs[i] == Some(path[i]) by {
            assert(all[i] == Some(path[i]));
        }
    }
}

} // verus!
