//! Finding out about one turf: what to ask the server, and what its answers add up to.

use crate::directions::{opposite, reverse_dir, DOWN, EAST, NORTH, SOUTH, UP, WEST};
use crate::geometry::TurfCoords;
use crate::nav_pass::{
    asks_blockers, baked, cache_nav_pass, cached_nav_pass, conditional, edge_open, edge_undecided,
    is_cardinal, is_upright, law_packed_bits, law_resolved_edges, law_resolved_vertical_edges,
    lets_leave, nav_pass_is_baked, nav_pass_is_simulated, open_bit, passable, published,
    resolved_info, undecided, NavPassCache, TurfInfo, COND_SHIFT, FLYING_SHIFT, SIMULATED_FLAG,
    VERTICAL_SHIFT,
};
use vstd::prelude::*;

verus! {

/// One blocker registered on a conditional edge.
#[derive(Clone, Copy, Debug, PartialEq, Eq, Structural)]
pub enum Blocker {
    /// Lets movers with any of these pass flags through.
    PassFlags(i32),
    /// An object that has to be asked.
    Object,
}

/// Where the check of one conditional edge stands.
#[derive(Clone, Copy, Debug, PartialEq, Eq, Structural)]
pub enum EdgeStage {
    /// Every blocker lets the mover through.
    Open,
    /// Some blocker stops the mover.
    Blocked,
    /// The object at this place of the list has to be asked.
    Asking(usize),
}

/// The stage reached by going through the blockers from one place on, up to the first that
/// stops the mover or has to be asked.
pub open spec fn scan(blockers: Seq<Blocker>, pass_flags: i32, from: int) -> EdgeStage
    decreases blockers.len() - from,
{
    if from < 0 || from >= blockers.len() {
        EdgeStage::Open
    } else {
        match blockers[from] {
            Blocker::PassFlags(needed) => if pass_flags & needed == 0 {
                EdgeStage::Blocked
            } else {
                scan(blockers, pass_flags, from + 1)
            },
            Blocker::Object => EdgeStage::Asking(from as usize),
        }
    }
}

/// Checks the live blockers of one conditional edge, one after the other.
pub struct EdgeCheck {
    /// Direction of the edge.
    pub dir: i32,
    /// Pass flags of the mover.
    pub pass_flags: i32,
    /// Blockers registered on the edge.
    pub blockers: Vec<Blocker>,
    /// Where the check stands.
    pub stage: EdgeStage,
}

impl EdgeCheck {
    /// Starts the check of an edge; an edge without a list of blockers is open.
    pub fn new(dir: i32, pass_flags: i32, blockers: Option<Vec<Blocker>>) -> (check: Self)
        ensures
            check.dir == dir,
            check.pass_flags == pass_flags,
            check.blockers@ == (match blockers {
                Some(list) => list@,
                None => Seq::<Blocker>::empty(),
            }),
            check.stage == scan(check.blockers@, pass_flags, 0),
    {
        let blockers: Vec<Blocker> = match blockers {
            Some(list) => list,
            None => Vec::new(),
        };
        let stage = scan_blockers(&blockers, pass_flags, 0);
        EdgeCheck { dir, pass_flags, blockers, stage }
    }

    /// The direction to put to an object. Blockers are registered on the outgoing edge, so one on
    /// the destination sees the reverse direction.
    pub fn asked_dir(&self, blocker_on_turf: bool) -> (dir: i32)
        ensures
            dir == if blocker_on_turf {
                self.dir
            } else {
                opposite(self.dir)
            },
    {
        if blocker_on_turf {
            self.dir
        } else {
            reverse_dir(self.dir)
        }
    }

    /// Takes the answer of the object that was asked.
    pub fn answered(&mut self, passes: bool)
        requires
            old(self).stage is Asking,
        ensures
            final(self).dir == old(self).dir,
            final(self).pass_flags == old(self).pass_flags,
            final(self).blockers == old(self).blockers,
            final(self).stage == if passes {
                scan(old(self).blockers@, old(self).pass_flags, old(self).stage->Asking_0 + 1)
            } else {
                EdgeStage::Blocked
            },
    {
        if !passes {
            self.stage = EdgeStage::Blocked;
            return ;
        }
        if let EdgeStage::Asking(at) = self.stage {
            if at < self.blockers.len() {
                self.stage = scan_blockers(&self.blockers, self.pass_flags, at + 1);
            } else {
                self.stage = EdgeStage::Open;
            }
        }
    }
}

/// Goes through the blockers from one place on.
fn scan_blockers(blockers: &Vec<Blocker>, pass_flags: i32, from: usize) -> (stage: EdgeStage)
    requires
        from <= blockers@.len(),
    ensures
        stage == scan(blockers@, pass_flags, from as int),
{
    let mut at: usize = from;
    while at < blockers.len()
        invariant
            from <= at <= blockers@.len(),
            scan(blockers@, pass_flags, from as int) == scan(blockers@, pass_flags, at as int),
        decreases blockers@.len() - at,
    {
        match blockers[at] {
            Blocker::PassFlags(needed) => {
                if pass_flags & needed == 0 {
                    return EdgeStage::Blocked;
                }
            },
            Blocker::Object => {
                return EdgeStage::Asking(at);
            },
        }
        at = at + 1;
    }
    EdgeStage::Open
}

/// Whether one blocker lets the mover through, given what the objects answer.
pub open spec fn lets_through(
    blockers: Seq<Blocker>,
    pass_flags: i32,
    answers: spec_fn(int) -> bool,
    i: int,
) -> bool {
    match blockers[i] {
        Blocker::PassFlags(needed) => pass_flags & needed != 0,
        Blocker::Object => answers(i),
    }
}

/// The outcome of carrying a check through from a place on, with the given answers.
pub open spec fn check_outcome(
    blockers: Seq<Blocker>,
    pass_flags: i32,
    answers: spec_fn(int) -> bool,
    from: int,
) -> bool
    decreases blockers.len() - from,
{
    match scan(blockers, pass_flags, from) {
        EdgeStage::Open => true,
        EdgeStage::Blocked => false,
        EdgeStage::Asking(at) => if from <= at < blockers.len() && answers(at as int) {
            check_outcome(blockers, pass_flags, answers, at + 1)
        } else {
            false
        },
    }
}

/// A conditional edge turns out open exactly when every one of its blockers lets the mover
/// through.
pub proof fn law_edge_open_iff_all_blockers_pass(
    blockers: Seq<Blocker>,
    pass_flags: i32,
    answers: spec_fn(int) -> bool,
)
    requires
        blockers.len() <= usize::MAX,
    ensures
        check_outcome(blockers, pass_flags, answers, 0) <==> forall|i: int|
            0 <= i < blockers.len() ==> #[trigger] lets_through(blockers, pass_flags, answers, i),
{
    lemma_check_outcome(blockers, pass_flags, answers, 0);
}

proof fn lemma_check_outcome(
    blockers: Seq<Blocker>,
    pass_flags: i32,
    answers: spec_fn(int) -> bool,
    from: int,
)
    requires
        blockers.len() <= usize::MAX,
        0 <= from <= blockers.len(),
    ensures
        check_outcome(blockers, pass_flags, answers, from) <==> forall|i: int|
            from <= i < blockers.len() ==> #[trigger] lets_through(
                blockers,
                pass_flags,
                answers,
                i,
            ),
    decreases blockers.len() - from,
{
    if from < blockers.len() {
        lemma_check_outcome(blockers, pass_flags, answers, from + 1);
        assert(lets_through(blockers, pass_flags, answers, from) ==> check_outcome(
            blockers,
            pass_flags,
            answers,
            from,
        ) == check_outcome(blockers, pass_flags, answers, from + 1)) by {
            if blockers[from] is PassFlags {
                lemma_scan_is_ahead(blockers, pass_flags, from + 1);
            }
        }
        assert(!lets_through(blockers, pass_flags, answers, from) ==> !check_outcome(
            blockers,
            pass_flags,
            answers,
            from,
        ));
    }
}

proof fn lemma_scan_is_ahead(blockers: Seq<Blocker>, pass_flags: i32, from: int)
    requires
        blockers.len() <= usize::MAX,
        0 <= from <= blockers.len(),
    ensures
        scan(blockers, pass_flags, from) matches EdgeStage::Asking(at) ==> from <= at
            < blockers.len() && blockers[at as int] == Blocker::Object,
    decreases blockers.len() - from,
{
    if from < blockers.len() {
        lemma_scan_is_ahead(blockers, pass_flags, from + 1);
    }
}

/// The edges that blockers may be asked about, in the order in which they are asked.
pub open spec fn probed_dir(index: int) -> i32 {
    if index == 0 {
        NORTH
    } else if index == 1 {
        SOUTH
    } else if index == 2 {
        EAST
    } else if index == 3 {
        WEST
    } else if index == 4 {
        UP
    } else {
        DOWN
    }
}

/// Returns one of the edges that blockers may be asked about.
fn probed_dir_at(index: usize) -> (dir: i32)
    requires
        index < 6,
    ensures
        dir == probed_dir(index as int),
{
    match index {
        0 => NORTH,
        1 => SOUTH,
        2 => EAST,
        3 => WEST,
        4 => UP,
        _ => DOWN,
    }
}

/// How far a lookup of one turf has come.
#[derive(Clone, Copy, Debug, PartialEq, Eq, Structural)]
pub enum ProbeStage {
    /// The turf has to be located.
    Locating,
    /// The turf's packed value has to be read.
    Reading,
    /// The turf is dirty and has to be baked.
    Baking,
    /// The packed value has to be read again after the bake.
    Rereading,
    /// The blockers of one edge have to be checked.
    Checking {
        /// The baked value.
        nav_pass: i32,
        /// Place of the edge in the order of questions.
        at: usize,
        /// Directions whose blockers let the mover through.
        passed: i32,
    },
    /// The lookup is over; there may be no turf at all.
    Finished(Option<TurfInfo>),
}

/// Looks up one turf that the published values do not settle.
#[derive(Clone, Copy, Debug)]
pub struct TurfProbe {
    /// The turf in question.
    pub coords: TurfCoords,
    /// Whether flying edges should be used.
    pub is_flying: bool,
    /// Whether vertical edges count too.
    pub layered: bool,
    /// How far the lookup has come.
    pub stage: ProbeStage,
}

impl TurfProbe {
    /// Number of edges that may have to be checked.
    pub open spec fn edge_count(self) -> int {
        if self.layered && self.is_flying {
            6
        } else {
            4
        }
    }

    /// First place from `at` on whose edge the blockers decide about.
    pub open spec fn next_edge(self, nav_pass: i32, at: int) -> int
        decreases self.edge_count() - at,
    {
        if at >= self.edge_count() || undecided(nav_pass, probed_dir(at), self.is_flying) {
            at
        } else {
            self.next_edge(nav_pass, at + 1)
        }
    }

    /// The stage that follows once the edges before `at` are settled.
    pub open spec fn settled_from(self, nav_pass: i32, at: int, passed: i32) -> ProbeStage {
        let next = self.next_edge(nav_pass, at);
        if next >= self.edge_count() {
            ProbeStage::Finished(
                Some(resolved_info(nav_pass, self.is_flying, self.layered, passed)),
            )
        } else {
            ProbeStage::Checking { nav_pass, at: next as usize, passed }
        }
    }

    /// What a turf that stays dirty amounts to: no open edge.
    pub open spec fn dirty_info(nav_pass: i32) -> TurfInfo {
        TurfInfo { open_edges: 0, simulated: nav_pass & SIMULATED_FLAG != 0 }
    }

    /// Whether this probe differs from another in its stage only.
    pub open spec fn same_turf(self, other: TurfProbe) -> bool {
        self.coords == other.coords && self.is_flying == other.is_flying && self.layered
            == other.layered
    }

    /// Starts the lookup of a turf.
    pub fn new(coords: TurfCoords, is_flying: bool, layered: bool) -> (probe: Self)
        ensures
            probe == (TurfProbe { coords, is_flying, layered, stage: ProbeStage::Locating }),
    {
        TurfProbe { coords, is_flying, layered, stage: ProbeStage::Locating }
    }

    /// The edge whose blockers have to be checked next.
    pub fn asked_dir(&self) -> (dir: Option<i32>)
        requires
            self.stage matches ProbeStage::Checking { at, .. } ==> at < 6,
        ensures
            dir == (match self.stage {
                ProbeStage::Checking { at, .. } => Some(probed_dir(at as int)),
                _ => None,
            }),
    {
        match self.stage {
            ProbeStage::Checking { at, .. } => Some(probed_dir_at(at)),
            _ => None,
        }
    }

    /// Takes note of whether the turf exists.
    pub fn located(&mut self, found: bool)
        requires
            old(self).stage is Locating,
        ensures
            final(self).same_turf(*old(self)),
            final(self).stage == if found {
                ProbeStage::Reading
            } else {
                ProbeStage::Finished(None)
            },
    {
        self.stage = if found { ProbeStage::Reading } else { ProbeStage::Finished(None) };
    }

    /// Takes the packed value read from the turf. A published value wins over the first reading;
    /// a dirty turf is baked and read once more, and what the bake gives is published.
    pub fn nav_pass_read(&mut self, cache: &mut NavPassCache, value: i32)
        requires
            old(self).stage is Reading || old(self).stage is Rereading,
        ensures
            final(self).same_turf(*old(self)),
            old(self).stage is Reading ==> {
                let nav_pass = published(*old(cache), old(self).coords).unwrap_or(value);
                &&& final(cache)@ == old(cache)@
                &&& final(self).stage == if baked(nav_pass) {
                    old(self).settled_from(nav_pass, 0, 0)
                } else {
                    ProbeStage::Baking
                }
            },
            old(self).stage is Rereading ==> if baked(value) {
                &&& final(cache)@ == old(cache)@.insert(old(self).coords, value)
                &&& final(self).stage == old(self).settled_from(value, 0, 0)
            } else {
                &&& final(cache)@ == old(cache)@
                &&& final(self).stage == ProbeStage::Finished(Some(Self::dirty_info(value)))
            },
    {
        if let ProbeStage::Reading = self.stage {
            let nav_pass: i32 = cached_nav_pass(cache, self.coords).unwrap_or(value);
            if nav_pass_is_baked(nav_pass) {
                self.settle(nav_pass, 0, 0);
            } else {
                self.stage = ProbeStage::Baking;
            }
        } else if nav_pass_is_baked(value) {
            cache_nav_pass(cache, self.coords, value);
            self.settle(value, 0, 0);
        } else {
            let info = TurfInfo { open_edges: 0, simulated: nav_pass_is_simulated(value) };
            self.stage = ProbeStage::Finished(Some(info));
        }
    }

    /// Takes note that the turf was told to bake itself.
    pub fn bake_done(&mut self)
        requires
            old(self).stage is Baking,
        ensures
            final(self).same_turf(*old(self)),
            final(self).stage == ProbeStage::Rereading,
    {
        self.stage = ProbeStage::Rereading;
    }

    /// Takes the verdict on the edge that was asked about.
    pub fn edge_checked(&mut self, open: bool)
        requires
            old(self).stage matches ProbeStage::Checking { at, .. } && at < 6,
        ensures
            final(self).same_turf(*old(self)),
            old(self).stage matches ProbeStage::Checking { nav_pass, at, passed }
                && final(self).stage == old(self).settled_from(
                nav_pass,
                at + 1,
                if open {
                    passed | probed_dir(at as int)
                } else {
                    passed
                },
            ),
    {
        if let ProbeStage::Checking { nav_pass, at, passed } = self.stage {
            let passed: i32 = if open { passed | probed_dir_at(at) } else { passed };
            self.settle(nav_pass, at + 1, passed);
        }
    }

    /// Moves on to the next edge that blockers decide about, or finishes.
    fn settle(&mut self, nav_pass: i32, from: usize, passed: i32)
        requires
            from <= 6,
        ensures
            final(self).same_turf(*old(self)),
            final(self).stage == old(self).settled_from(nav_pass, from as int, passed),
    {
        let count: usize = if self.layered && self.is_flying { 6 } else { 4 };
        let mut at: usize = from;
        while at < count && !edge_undecided(nav_pass, probed_dir_at(at), self.is_flying)
            invariant
                count == self.edge_count(),
                count <= 6,
                at <= 6,
                *self == *old(self),
                self.next_edge(nav_pass, from as int) == self.next_edge(nav_pass, at as int),
            decreases count - at,
        {
            at = at + 1;
        }
        if at < count {
            self.stage = ProbeStage::Checking { nav_pass, at, passed };
            return ;
        }
        let cardinals: i32 = open_edge_bit(nav_pass, NORTH, self.is_flying, passed)
            | open_edge_bit(nav_pass, SOUTH, self.is_flying, passed) | open_edge_bit(
            nav_pass,
            EAST,
            self.is_flying,
            passed,
        ) | open_edge_bit(nav_pass, WEST, self.is_flying, passed);
        let verticals: i32 = if self.is_flying {
            open_edge_bit(nav_pass, UP, true, passed) | open_edge_bit(nav_pass, DOWN, true, passed)
        } else {
            0
        };
        let open_edges: i32 = if self.layered {
            cardinals | (verticals << VERTICAL_SHIFT)
        } else {
            cardinals
        };
        let info = TurfInfo { open_edges, simulated: nav_pass_is_simulated(nav_pass) };
        self.stage = ProbeStage::Finished(Some(info));
    }
}

/// Returns the direction's bit if its edge is open.
fn open_edge_bit(nav_pass: i32, dir: i32, is_flying: bool, passed: i32) -> (bit: i32)
    ensures
        bit == open_bit(nav_pass, dir, is_flying, passed),
{
    let class_shift: i32 = if is_flying { FLYING_SHIFT } else { 0 };
    if nav_pass & (dir << class_shift) != 0 && (nav_pass & (dir << COND_SHIFT) == 0 || passed & dir
        != 0) {
        dir
    } else {
        0
    }
}

/// What a lookup finds once it is checking edges, if each check ends with the given verdict.
pub open spec fn probe_outcome(probe: TurfProbe, verdicts: spec_fn(i32) -> bool) -> Option<TurfInfo>
    decreases
            (match probe.stage {
                ProbeStage::Checking { at, .. } => 7 - at,
                _ => 0,
            }),
{
    match probe.stage {
        ProbeStage::Finished(info) => info,
        ProbeStage::Checking { nav_pass, at, passed } => {
            let dir = probed_dir(at as int);
            let stage = probe.settled_from(
                nav_pass,
                at + 1,
                if verdicts(dir) {
                    passed | dir
                } else {
                    passed
                },
            );
            if at < 6 {
                proof {
                    lemma_next_edge_is_ahead(probe, nav_pass, at + 1);
                }
                probe_outcome(TurfProbe { stage, ..probe }, verdicts)
            } else {
                None
            }
        },
        _ => None,
    }
}

/// The next edge to ask about is never one before the place where the search for it starts.
pub proof fn lemma_next_edge_is_ahead(probe: TurfProbe, nav_pass: i32, at: int)
    ensures
        at <= probe.next_edge(nav_pass, at),
        at <= probe.edge_count() ==> probe.next_edge(nav_pass, at) <= probe.edge_count(),
        probe.next_edge(nav_pass, at) < probe.edge_count() ==> undecided(
            nav_pass,
            probed_dir(probe.next_edge(nav_pass, at)),
            probe.is_flying,
        ),
        forall|j: int|
            at <= j < probe.next_edge(nav_pass, at) && j < probe.edge_count() ==> !undecided(
                nav_pass,
                #[trigger] probed_dir(j),
                probe.is_flying,
            ),
    decreases probe.edge_count() - at,
{
    if at < probe.edge_count() && !undecided(nav_pass, probed_dir(at), probe.is_flying) {
        lemma_next_edge_is_ahead(probe, nav_pass, at + 1);
    }
}

/// Whether the collected directions agree with the verdicts on the edges before `at` and hold
/// none of the others.
spec fn collected(
    probe: TurfProbe,
    nav_pass: i32,
    at: int,
    passed: i32,
    verdicts: spec_fn(i32) -> bool,
) -> bool {
    forall|j: int|
        0 <= j < 6 && undecided(nav_pass, #[trigger] probed_dir(j), probe.is_flying) ==> (passed
            & probed_dir(j) != 0) == (j < at && verdicts(probed_dir(j)))
}

proof fn lemma_probe_outcome(
    probe: TurfProbe,
    nav_pass: i32,
    at: int,
    passed: i32,
    verdicts: spec_fn(i32) -> bool,
)
    requires
        0 <= at <= probe.edge_count(),
        collected(probe, nav_pass, at, passed, verdicts),
        probe.stage == probe.settled_from(nav_pass, at, passed),
    ensures
        exists|all: i32|
            #![trigger resolved_info(nav_pass, probe.is_flying, probe.layered, all)]
            {
                &&& probe_outcome(probe, verdicts) == Some(
                    resolved_info(nav_pass, probe.is_flying, probe.layered, all),
                )
                &&& collected(probe, nav_pass, probe.edge_count(), all, verdicts)
            },
    decreases probe.edge_count() - at,
{
    lemma_next_edge_is_ahead(probe, nav_pass, at);
    let next = probe.next_edge(nav_pass, at);
    if next >= probe.edge_count() {
        assert(collected(probe, nav_pass, probe.edge_count(), passed, verdicts));
        assert(probe_outcome(probe, verdicts) == Some(
            resolved_info(nav_pass, probe.is_flying, probe.layered, passed),
        ));
    } else {
        let dir = probed_dir(next);
        let gathered = if verdicts(dir) {
            passed | dir
        } else {
            passed
        };
        let after = TurfProbe { stage: probe.settled_from(nav_pass, next + 1, gathered), ..probe };
        assert forall|j: int|
            0 <= j < 6 && undecided(nav_pass, #[trigger] probed_dir(j), probe.is_flying) implies (
        gathered & probed_dir(j) != 0) == (j < next + 1 && verdicts(probed_dir(j))) by {
            lemma_one_more_direction(passed, next, j);
        }
        assert(collected(after, nav_pass, next + 1, gathered, verdicts));
        assert(after.settled_from(nav_pass, next + 1, gathered) == after.stage) by {
            lemma_settling_ignores_stage(probe, after, nav_pass, next + 1);
        }
        lemma_probe_outcome(after, nav_pass, next + 1, gathered, verdicts);
        let all = choose|all: i32|
            #![trigger resolved_info(nav_pass, probe.is_flying, probe.layered, all)]
            {
                &&& probe_outcome(after, verdicts) == Some(
                    resolved_info(nav_pass, probe.is_flying, probe.layered, all),
                )
                &&& collected(after, nav_pass, probe.edge_count(), all, verdicts)
            };
        assert(collected(probe, nav_pass, probe.edge_count(), all, verdicts));
        assert(probe_outcome(probe, verdicts) == probe_outcome(after, verdicts));
    }
}

proof fn lemma_settling_ignores_stage(a: TurfProbe, b: TurfProbe, nav_pass: i32, at: int)
    requires
        a.same_turf(b),
    ensures
        a.next_edge(nav_pass, at) == b.next_edge(nav_pass, at),
    decreases a.edge_count() - at,
{
    if at < a.edge_count() {
        lemma_settling_ignores_stage(a, b, nav_pass, at + 1);
    }
}

/// Noting one more direction shows in its own bit only.
proof fn lemma_one_more_direction(passed: i32, noted: int, asked: int)
    requires
        0 <= noted < 6,
        0 <= asked < 6,
    ensures
        (passed | probed_dir(noted)) & probed_dir(asked) != 0 <==> noted == asked || passed
            & probed_dir(asked) != 0,
{
    let n = probed_dir(noted);
    let a = probed_dir(asked);
    assert((passed | n) & a != 0 <==> n == a || passed & a != 0) by (bit_vector)
        requires
            n == 1 || n == 2 || n == 4 || n == 8 || n == 16 || n == 32,
            a == 1 || a == 2 || a == 4 || a == 8 || a == 16 || a == 32,
    ;
}

/// A lookup that got hold of a baked value ends with turf data in which an edge is open exactly
/// where the value lets the mover's class through and, on a conditional edge, its check ended in
/// the mover's favour.
pub proof fn law_probe_respects_every_verdict(
    probe: TurfProbe,
    nav_pass: i32,
    verdicts: spec_fn(i32) -> bool,
)
    requires
        probe.stage == probe.settled_from(nav_pass, 0, 0),
    ensures
        probe_outcome(probe, verdicts) matches Some(info) && {
            &&& info.simulated == (nav_pass & SIMULATED_FLAG != 0)
            &&& forall|j: int|
                0 <= j < 4 ==> info.opens(#[trigger] probed_dir(j)) == (passable(
                    nav_pass,
                    probed_dir(j),
                    probe.is_flying,
                ) && (conditional(nav_pass, probed_dir(j)) ==> verdicts(probed_dir(j))))
            &&& probe.layered ==> forall|j: int|
                4 <= j < 6 ==> info.opens_vertically(#[trigger] probed_dir(j)) == (probe.is_flying
                    && passable(nav_pass, probed_dir(j), true) && (conditional(
                    nav_pass,
                    probed_dir(j),
                ) ==> verdicts(probed_dir(j))))
        },
{
    assert forall|j: int| 0 <= j < 6 implies 0 & #[trigger] probed_dir(j) == 0 by {
        let a = probed_dir(j);
        assert(0i32 & a == 0) by (bit_vector);
    }
    lemma_probe_outcome(probe, nav_pass, 0, 0, verdicts);
    let all = choose|all: i32|
        #![trigger resolved_info(nav_pass, probe.is_flying, probe.layered, all)]
        {
            &&& probe_outcome(probe, verdicts) == Some(
                resolved_info(nav_pass, probe.is_flying, probe.layered, all),
            )
            &&& collected(probe, nav_pass, probe.edge_count(), all, verdicts)
        };
    assert forall|j: int| 0 <= j < 4 implies resolved_info(
        nav_pass,
        probe.is_flying,
        probe.layered,
        all,
    ).opens(#[trigger] probed_dir(j)) == edge_open(
        nav_pass,
        probed_dir(j),
        probe.is_flying,
        all,
    ) by {
        law_resolved_edges(nav_pass, probed_dir(j), probe.is_flying, probe.layered, all);
    }
    if probe.layered {
        assert forall|j: int| 4 <= j < 6 implies resolved_info(
            nav_pass,
            probe.is_flying,
            true,
            all,
        ).opens_vertically(#[trigger] probed_dir(j)) == (probe.is_flying && edge_open(
            nav_pass,
            probed_dir(j),
            true,
            all,
        )) by {
            law_resolved_vertical_edges(nav_pass, probed_dir(j), probe.is_flying, all);
        }
    }
}

/// What the blockers from one place on come to: a blocker that is asked is an object, and one that
/// stops the mover is a number of which it has no flag; all before it are numbers of which it has one.
pub proof fn law_blockers_are_gone_through_in_order(
    blockers: Seq<Blocker>,
    pass_flags: i32,
    from: int,
) -> (at: int)
    requires
        0 <= from <= blockers.len() <= usize::MAX,
    ensures
        from <= at <= blockers.len(),
        forall|i: int|
            from <= i < at ==> (#[trigger] blockers[i] matches Blocker::PassFlags(flags)
                && pass_flags & flags != 0),
        match scan(blockers, pass_flags, from) {
            EdgeStage::Open => at == blockers.len(),
            EdgeStage::Blocked => at < blockers.len() && (blockers[at] matches Blocker::PassFlags(
                flags,
            ) && pass_flags & flags == 0),
            EdgeStage::Asking(asked) => at < blockers.len() && asked == at && blockers[at]
                == Blocker::Object,
        },
    decreases blockers.len() - from,
{
    if from < blockers.len() {
        match blockers[from] {
            Blocker::PassFlags(flags) => {
                if pass_flags & flags == 0 {
                    from
                } else {
                    let at = law_blockers_are_gone_through_in_order(
                        blockers,
                        pass_flags,
                        from + 1,
                    );
                    at
                }
            },
            Blocker::Object => from,
        }
    } else {
        from
    }
}

/// The direction of each edge in the order in which edges are asked about.
pub open spec fn edge_numbered(index: int) -> i32 {
    if index == 0 {
        1
    } else if index == 1 {
        2
    } else if index == 2 {
        4
    } else if index == 3 {
        8
    } else if index == 4 {
        16
    } else {
        32
    }
}

/// Once a baked value is at hand, exactly those edges are asked about that the value lets the mover
/// leave by and leaves to the blockers, in order: the cardinal ones, and in a layered search those of
/// a flying mover upward and downward.
pub proof fn law_edges_are_asked_about_in_order(
    probe: TurfProbe,
    nav_pass: i32,
    from: int,
    passed: i32,
    i: int,
)
    requires
        0 <= from,
    ensures
        ({
            let count: int = if probe.layered && probe.is_flying {
                6
            } else {
                4
            };
            match probe.settled_from(nav_pass, from, passed) {
                ProbeStage::Checking { nav_pass: value, at, passed: kept } => {
                    &&& value == nav_pass && kept == passed
                    &&& from <= at < count
                    &&& lets_leave(nav_pass, edge_numbered(at as int), probe.is_flying)
                    &&& asks_blockers(nav_pass, edge_numbered(at as int))
                    &&& from <= i < at ==> !(lets_leave(
                        nav_pass,
                        edge_numbered(i),
                        probe.is_flying,
                    ) && asks_blockers(nav_pass, edge_numbered(i)))
                },
                ProbeStage::Finished(info) => {
                    &&& info is Some
                    &&& from <= i < count ==> !(lets_leave(
                        nav_pass,
                        edge_numbered(i),
                        probe.is_flying,
                    ) && asks_blockers(nav_pass, edge_numbered(i)))
                },
                _ => false,
            }
        }),
{
    lemma_next_edge_is_ahead(probe, nav_pass, from);
    let next = probe.next_edge(nav_pass, from);
    law_packed_bits(nav_pass, probed_dir(next), probe.is_flying);
    law_packed_bits(nav_pass, probed_dir(i), probe.is_flying);
    assert(0 <= i < 6 ==> probed_dir(i) == edge_numbered(i));
    assert(0 <= next < 6 ==> probed_dir(next) == edge_numbered(next));
}

/// A lookup that got hold of a baked value ends with turf data in which a cardinal edge is open exactly
/// where the value lets the mover leave by it and, where it leaves it to the blockers, these let the
/// mover pass; so are the vertical edges of a flying mover in a layered search.
pub proof fn law_probe_ends_with_the_open_edges(
    probe: TurfProbe,
    nav_pass: i32,
    verdicts: spec_fn(i32) -> bool,
    dir: i32,
)
    requires
        probe.stage == probe.settled_from(nav_pass, 0, 0),
    ensures
        probe_outcome(probe, verdicts) matches Some(info) && {
            &&& info.simulated == (nav_pass & 0x8_0000 != 0)
            &&& is_cardinal(dir) ==> (info.open_edges & dir != 0) == (lets_leave(
                nav_pass,
                dir,
                probe.is_flying,
            ) && (asks_blockers(nav_pass, dir) ==> verdicts(dir)))
            &&& is_upright(dir) && probe.layered ==> ((info.open_edges >> 24i32) & dir != 0) == (
            probe.is_flying && lets_leave(nav_pass, dir, true) && (asks_blockers(nav_pass, dir)
                ==> verdicts(dir)))
        },
{
    law_probe_respects_every_verdict(probe, nav_pass, verdicts);
    law_packed_bits(nav_pass, dir, probe.is_flying);
    law_packed_bits(nav_pass, dir, true);
    let j: int = if dir == 1 {
        0
    } else if dir == 2 {
        1
    } else if dir == 4 {
        2
    } else if dir == 8 {
        3
    } else if dir == 16 {
        4
    } else {
        5
    };
    assert(is_cardinal(dir) || is_upright(dir) ==> probed_dir(j) == dir);
}

/// A turf that stays dirty has no open edge, and is simulated where its value says so. A value is baked
/// where its eighteenth bit is set.
pub proof fn law_dirty_turf_has_no_open_edge(nav_pass: i32)
    ensures
        TurfProbe::dirty_info(nav_pass).open_edges == 0,
        TurfProbe::dirty_info(nav_pass).simulated == (nav_pass & 0x8_0000 != 0),
        baked(nav_pass) == (nav_pass & 0x4_0000 != 0),
{
}

} // verus!
