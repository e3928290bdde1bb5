//! Packed passability values and the edges they open.

use crate::directions::{DOWN, EAST, NORTH, SOUTH, UP, WEST};
use crate::geometry::TurfCoords;
use crate::packed_map::PackedMap;
use vstd::prelude::*;

verus! {

/// Flying-edge bit offset.
pub const FLYING_SHIFT: i32 = 6;

/// Conditional-edge bit offset.
pub const COND_SHIFT: i32 = 12;

/// Bit offset at which a turf's open vertical edges are kept.
pub const VERTICAL_SHIFT: i32 = 24;

/// Baked-turf flag.
pub const BAKED_FLAG: i32 = 0x4_0000;

/// Simulated-turf flag.
pub const SIMULATED_FLAG: i32 = 0x8_0000;

/// What a search knows of one turf.
#[derive(Clone, Copy, Debug, PartialEq, Eq, Structural)]
pub struct TurfInfo {
    /// Open edges for the current mover, vertical ones shifted out of the way.
    pub open_edges: i32,
    /// Whether the turf is simulated rather than space.
    pub simulated: bool,
}

impl TurfInfo {
    /// Whether the edge in a horizontal direction is open.
    pub open spec fn opens(self, dir: i32) -> bool {
        self.open_edges & dir != 0
    }

    /// Whether the edge in a vertical direction is open.
    pub open spec fn opens_vertically(self, dir: i32) -> bool {
        (self.open_edges >> VERTICAL_SHIFT) & dir != 0
    }
}

/// Whether a packed value has been baked.
pub open spec fn baked(nav_pass: i32) -> bool {
    nav_pass & BAKED_FLAG != 0
}

/// Whether a packed value lets the mover's class leave in a direction, blockers aside.
pub open spec fn passable(nav_pass: i32, dir: i32, is_flying: bool) -> bool {
    nav_pass & (dir << if is_flying {
        FLYING_SHIFT
    } else {
        0
    }) != 0
}

/// Whether live blockers have a say about a direction.
pub open spec fn conditional(nav_pass: i32, dir: i32) -> bool {
    nav_pass & (dir << COND_SHIFT) != 0
}

/// Whether an edge is open, given the directions whose blockers let the mover pass.
pub open spec fn edge_open(nav_pass: i32, dir: i32, is_flying: bool, passed: i32) -> bool {
    passable(nav_pass, dir, is_flying) && (conditional(nav_pass, dir) ==> passed & dir != 0)
}

/// The direction's bit if its edge is open, and no bit otherwise.
pub open spec fn open_bit(nav_pass: i32, dir: i32, is_flying: bool, passed: i32) -> i32 {
    if edge_open(nav_pass, dir, is_flying, passed) {
        dir
    } else {
        0
    }
}

/// The open cardinal edges.
pub open spec fn open_cardinals(nav_pass: i32, is_flying: bool, passed: i32) -> i32 {
    open_bit(nav_pass, NORTH, is_flying, passed) | open_bit(nav_pass, SOUTH, is_flying, passed)
        | open_bit(nav_pass, EAST, is_flying, passed) | open_bit(nav_pass, WEST, is_flying, passed)
}

/// The open vertical edges; only a flying mover has any.
pub open spec fn open_verticals(nav_pass: i32, is_flying: bool, passed: i32) -> i32 {
    if is_flying {
        open_bit(nav_pass, UP, true, passed) | open_bit(nav_pass, DOWN, true, passed)
    } else {
        0
    }
}

/// The turf data that a baked value and the blockers' answers add up to.
pub open spec fn resolved_info(
    nav_pass: i32,
    is_flying: bool,
    layered: bool,
    passed: i32,
) -> TurfInfo {
    TurfInfo {
        open_edges: if layered {
            open_cardinals(nav_pass, is_flying, passed) | (open_verticals(
                nav_pass,
                is_flying,
                passed,
            ) << VERTICAL_SHIFT)
        } else {
            open_cardinals(nav_pass, is_flying, passed)
        },
        simulated: nav_pass & SIMULATED_FLAG != 0,
    }
}

/// Whether blockers decide about an edge that the mover could otherwise take.
pub open spec fn undecided(nav_pass: i32, dir: i32, is_flying: bool) -> bool {
    passable(nav_pass, dir, is_flying) && conditional(nav_pass, dir)
}

/// Whether blockers decide about any edge of the mover's class.
pub open spec fn any_undecided(nav_pass: i32, is_flying: bool) -> bool {
    ||| undecided(nav_pass, NORTH, is_flying)
    ||| undecided(nav_pass, SOUTH, is_flying)
    ||| undecided(nav_pass, EAST, is_flying)
    ||| undecided(nav_pass, WEST, is_flying)
    ||| is_flying && (undecided(nav_pass, UP, true) || undecided(nav_pass, DOWN, true))
}

/// Checks the packed simulated-turf flag.
pub fn nav_pass_is_simulated(nav_pass: i32) -> (simulated: bool)
    ensures
        simulated == (nav_pass & SIMULATED_FLAG != 0),
{
    nav_pass & SIMULATED_FLAG != 0
}

/// Checks the packed baked-turf flag.
pub fn nav_pass_is_baked(nav_pass: i32) -> (is_baked: bool)
    ensures
        is_baked == baked(nav_pass),
{
    nav_pass & BAKED_FLAG != 0
}

/// Checks whether blockers decide about one edge of the mover's class.
pub fn edge_undecided(nav_pass: i32, dir: i32, is_flying: bool) -> (b: bool)
    ensures
        b == undecided(nav_pass, dir, is_flying),
{
    let class_shift: i32 = if is_flying { FLYING_SHIFT } else { 0 };
    nav_pass & (dir << class_shift) != 0 && nav_pass & (dir << COND_SHIFT) != 0
}

/// Decodes cached baked edges when no live conditional blocker lookup is needed.
///
/// A cached value may be used without locating the turf only when none of the selected
/// movement-class edges are conditional. Vertical edges are returned separately because the
/// layered search stores them outside the horizontal edge bit range.
pub fn cached_unconditional_edges(nav_pass: i32, is_flying: bool) -> (edges: Option<(i32, i32)>)
    ensures
        match edges {
            Some((open, vertical)) => {
                &&& !any_undecided(nav_pass, is_flying)
                &&& open == open_cardinals(nav_pass, is_flying, 0)
                &&& vertical == open_verticals(nav_pass, is_flying, 0)
            },
            None => any_undecided(nav_pass, is_flying),
        },
{
    if edge_undecided(nav_pass, NORTH, is_flying) || edge_undecided(nav_pass, SOUTH, is_flying)
        || edge_undecided(nav_pass, EAST, is_flying) || edge_undecided(
        nav_pass,
        WEST,
        is_flying,
    ) {
        return None;
    }
    if is_flying && (edge_undecided(nav_pass, UP, true) || edge_undecided(nav_pass, DOWN, true)) {
        return None;
    }
    let open: i32 = if is_flying { (nav_pass & 0x3c0) >> FLYING_SHIFT } else { nav_pass & 0xf };
    let vertical: i32 = if is_flying { (nav_pass & 0xc00) >> FLYING_SHIFT } else { 0 };
    proof {
        assert(nav_pass & 0xf == (if nav_pass & (1i32 << 0i32) != 0 { 1i32 } else { 0i32 })
            | (if nav_pass & (2i32 << 0i32) != 0 { 2i32 } else { 0i32 })
            | (if nav_pass & (4i32 << 0i32) != 0 { 4i32 } else { 0i32 })
            | (if nav_pass & (8i32 << 0i32) != 0 { 8i32 } else { 0i32 })) by (bit_vector);
        assert((nav_pass & 0x3c0) >> 6i32 == (if nav_pass & (1i32 << 6i32) != 0 { 1i32 } else {
            0i32
        }) | (if nav_pass & (2i32 << 6i32) != 0 { 2i32 } else { 0i32 })
            | (if nav_pass & (4i32 << 6i32) != 0 { 4i32 } else { 0i32 })
            | (if nav_pass & (8i32 << 6i32) != 0 { 8i32 } else { 0i32 })) by (bit_vector);
        assert((nav_pass & 0xc00) >> 6i32 == (if nav_pass & (16i32 << 6i32) != 0 { 16i32 } else {
            0i32
        }) | (if nav_pass & (32i32 << 6i32) != 0 { 32i32 } else { 0i32 })) by (bit_vector);
    }
    Some((open, vertical))
}

/// Packed values by turf, as last published.
pub type NavPassCache = PackedMap<TurfCoords, i32>;

/// What a cache holds for a turf.
pub open spec fn published(cache: NavPassCache, coords: TurfCoords) -> Option<i32> {
    if cache@.contains_key(coords) {
        Some(cache@[coords])
    } else {
        None
    }
}

/// Reads one packed navmap value from the shared cache.
pub fn cached_nav_pass(cache: &NavPassCache, coords: TurfCoords) -> (nav_pass: Option<i32>)
    ensures
        nav_pass == published(*cache, coords),
{
    match cache.get(coords) {
        Some(nav_pass) => Some(*nav_pass),
        None => None,
    }
}

/// Stores one packed navmap value in the shared cache.
///
/// Both baked values and invalidations are published here. Keeping an unbaked value is
/// intentional: a lookup forces a fresh bake before using it.
pub fn cache_nav_pass(cache: &mut NavPassCache, coords: TurfCoords, nav_pass: i32)
    ensures
        final(cache)@ == old(cache)@.insert(coords, nav_pass),
{
    cache.insert(coords, nav_pass);
}

/// A cache after the first `count` of a list of values was published; a later value wins.
pub open spec fn published_upto(
    cache: Map<TurfCoords, i32>,
    values: Seq<(TurfCoords, i32)>,
    count: nat,
) -> Map<TurfCoords, i32>
    decreases count,
{
    if count == 0 {
        cache
    } else {
        published_upto(cache, values, (count - 1) as nat).insert(
            values[count - 1].0,
            values[count - 1].1,
        )
    }
}

/// Stores a batch of packed navmap values in the shared cache.
pub fn cache_nav_passes(cache: &mut NavPassCache, values: &Vec<(TurfCoords, i32)>)
    ensures
        final(cache)@ == published_upto(old(cache)@, values@, values@.len()),
{
    let mut at: usize = 0;
    while at < values.len()
        invariant
            at <= values@.len(),
            cache@ == published_upto(old(cache)@, values@, at as nat),
        decreases values@.len() - at,
    {
        let (coords, nav_pass) = values[at];
        cache_nav_pass(cache, coords, nav_pass);
        at = at + 1;
    }
}

/// What was published last for a turf is what a read gives; every other turf keeps its value.
pub proof fn law_last_published_value_is_read(
    before: NavPassCache,
    after: NavPassCache,
    coords: TurfCoords,
    nav_pass: i32,
    other: TurfCoords,
)
    requires
        after@ == before@.insert(coords, nav_pass),
    ensures
        published(after, coords) == Some(nav_pass),
        other != coords ==> published(after, other) == published(before, other),
{
}

/// The turf data that a published value gives without locating the turf: it must be baked, and
/// no blocker may have a say.
pub open spec fn published_info(
    cache: NavPassCache,
    coords: TurfCoords,
    is_flying: bool,
    layered: bool,
) -> Option<TurfInfo> {
    match published(cache, coords) {
        Some(nav_pass) => if baked(nav_pass) && !any_undecided(nav_pass, is_flying) {
            Some(resolved_info(nav_pass, is_flying, layered, 0))
        } else {
            None
        },
        None => None,
    }
}

/// Reads a turf's data from the shared cache where that alone settles it.
pub fn cached_turf_info(
    cache: &NavPassCache,
    coords: TurfCoords,
    is_flying: bool,
    layered: bool,
) -> (info: Option<TurfInfo>)
    ensures
        info == published_info(*cache, coords, is_flying, layered),
{
    match cached_nav_pass(cache, coords) {
        Some(nav_pass) => if nav_pass_is_baked(nav_pass) {
            match cached_unconditional_edges(nav_pass, is_flying) {
                Some((open, vertical)) => {
                    let open_edges: i32 = if layered {
                        open | (vertical << VERTICAL_SHIFT)
                    } else {
                        open
                    };
                    Some(TurfInfo { open_edges, simulated: nav_pass_is_simulated(nav_pass) })
                },
                None => None,
            }
        } else {
            None
        },
        None => None,
    }
}

/// A turf opens a cardinal edge exactly where its packed value lets the mover's class through
/// and, on a conditional edge, the blockers do too.
pub proof fn law_resolved_edges(
    nav_pass: i32,
    dir: i32,
    is_flying: bool,
    layered: bool,
    passed: i32,
)
    requires
        dir == NORTH || dir == SOUTH || dir == EAST || dir == WEST,
    ensures
        resolved_info(nav_pass, is_flying, layered, passed).opens(dir) == edge_open(
            nav_pass,
            dir,
            is_flying,
            passed,
        ),
{
    lemma_bits_stay_apart(
        open_bit(nav_pass, NORTH, is_flying, passed),
        open_bit(nav_pass, SOUTH, is_flying, passed),
        open_bit(nav_pass, EAST, is_flying, passed),
        open_bit(nav_pass, WEST, is_flying, passed),
        open_bit(nav_pass, UP, true, passed),
        open_bit(nav_pass, DOWN, true, passed),
    );
    let cardinals = open_cardinals(nav_pass, is_flying, passed);
    assert(cardinals | (0i32 << 24i32) == cardinals) by (bit_vector);
}

/// A layered turf opens a vertical edge exactly where a flying mover is let through.
pub proof fn law_resolved_vertical_edges(nav_pass: i32, dir: i32, is_flying: bool, passed: i32)
    requires
        dir == UP || dir == DOWN,
    ensures
        resolved_info(nav_pass, is_flying, true, passed).opens_vertically(dir) == (is_flying
            && edge_open(nav_pass, dir, true, passed)),
{
    lemma_bits_stay_apart(
        open_bit(nav_pass, NORTH, is_flying, passed),
        open_bit(nav_pass, SOUTH, is_flying, passed),
        open_bit(nav_pass, EAST, is_flying, passed),
        open_bit(nav_pass, WEST, is_flying, passed),
        open_bit(nav_pass, UP, true, passed),
        open_bit(nav_pass, DOWN, true, passed),
    );
    lemma_bits_stay_apart(
        open_bit(nav_pass, NORTH, is_flying, passed),
        open_bit(nav_pass, SOUTH, is_flying, passed),
        open_bit(nav_pass, EAST, is_flying, passed),
        open_bit(nav_pass, WEST, is_flying, passed),
        0,
        0,
    );
    assert(0i32 | 0i32 == 0i32) by (bit_vector);
}

/// Bits put together from disjoint places can be told apart again.
proof fn lemma_bits_stay_apart(n: i32, s: i32, e: i32, w: i32, u: i32, d: i32)
    requires
        n == 0 || n == 1,
        s == 0 || s == 2,
        e == 0 || e == 4,
        w == 0 || w == 8,
        u == 0 || u == 16,
        d == 0 || d == 32,
    ensures
        (n | s | e | w) & 1 == n,
        (n | s | e | w) & 2 == s,
        (n | s | e | w) & 4 == e,
        (n | s | e | w) & 8 == w,
        (n | s | e | w | ((u | d) << 24i32)) & 1 == n,
        (n | s | e | w | ((u | d) << 24i32)) & 2 == s,
        (n | s | e | w | ((u | d) << 24i32)) & 4 == e,
        (n | s | e | w | ((u | d) << 24i32)) & 8 == w,
        ((n | s | e | w | ((u | d) << 24i32)) >> 24i32) & 16 == u,
        ((n | s | e | w | ((u | d) << 24i32)) >> 24i32) & 32 == d,
{
    assert((n | s | e | w) & 1 == n && (n | s | e | w) & 2 == s && (n | s | e | w) & 4 == e && (n
        | s | e | w) & 8 == w && (n | s | e | w | ((u | d) << 24i32)) & 1 == n && (n | s | e | w
        | ((u | d) << 24i32)) & 2 == s && (n | s | e | w | ((u | d) << 24i32)) & 4 == e && (n | s
        | e | w | ((u | d) << 24i32)) & 8 == w && ((n | s | e | w | ((u | d) << 24i32)) >> 24i32)
        & 16 == u && ((n | s | e | w | ((u | d) << 24i32)) >> 24i32) & 32 == d) by (bit_vector)
        requires
            n == 0 || n == 1,
            s == 0 || s == 2,
            e == 0 || e == 4,
            w == 0 || w == 8,
            u == 0 || u == 16,
            d == 0 || d == 32,
    ;
}

/// Where a published value settles a turf, asking the blockers could not have changed anything.
pub proof fn law_published_info_needs_no_blockers(
    cache: NavPassCache,
    coords: TurfCoords,
    is_flying: bool,
    layered: bool,
    passed: i32,
)
    requires
        published_info(cache, coords, is_flying, layered) is Some,
    ensures
        published(cache, coords) is Some,
        published_info(cache, coords, is_flying, layered) == Some(
            resolved_info(published(cache, coords).unwrap(), is_flying, layered, passed),
        ),
{
}

proof fn lemma_published(
    cache: Map<TurfCoords, i32>,
    values: Seq<(TurfCoords, i32)>,
    count: nat,
    i: int,
    coords: TurfCoords,
)
    requires
        count <= values.len(),
    ensures
        0 <= i < count && (forall|j: int|
            i < j < count ==> (#[trigger] values[j]).0 != values[i].0) ==> published_upto(
            cache,
            values,
            count,
        ).contains_key(values[i].0) && published_upto(cache, values, count)[values[i].0]
            == values[i].1,
        (forall|j: int| 0 <= j < count ==> (#[trigger] values[j]).0 != coords) ==> {
            &&& published_upto(cache, values, count).contains_key(coords) == cache.contains_key(
                coords,
            )
            &&& published_upto(cache, values, count)[coords] == cache[coords]
        },
    decreases count,
{
    if count > 0 {
        lemma_published(cache, values, (count - 1) as nat, i, coords);
        assert(values[count - 1].0 != coords || !(forall|j: int|
            0 <= j < count ==> (#[trigger] values[j]).0 != coords));
    }
}

/// Of a batch of values the last one for a turf is kept, and a turf that is not among them keeps what
/// it had.
pub proof fn law_last_value_of_a_batch_is_kept(
    cache: Map<TurfCoords, i32>,
    values: Seq<(TurfCoords, i32)>,
    i: int,
    coords: TurfCoords,
)
    ensures
        ({
            let after = published_upto(cache, values, values.len());
            &&& 0 <= i < values.len() && (forall|j: int|
                i < j < values.len() ==> (#[trigger] values[j]).0 != values[i].0)
                ==> after.contains_key(values[i].0) && after[values[i].0] == values[i].1
            &&& (forall|j: int| 0 <= j < values.len() ==> (#[trigger] values[j]).0 != coords) ==> {
                &&& after.contains_key(coords) == cache.contains_key(coords)
                &&& after[coords] == cache[coords]
            }
        }),
{
    lemma_published(cache, values, values.len(), i, coords);
}

/// Whether a packed value lets a mover leave in a direction: by the bit of the direction itself where
/// it walks, by the one six places up where it flies.
pub open spec fn lets_leave(nav_pass: i32, dir: i32, is_flying: bool) -> bool {
    if is_flying {
        nav_pass & (dir << 6i32) != 0
    } else {
        nav_pass & dir != 0
    }
}

/// Whether a packed value leaves a direction to live blockers: the bit twelve places up is set.
pub open spec fn asks_blockers(nav_pass: i32, dir: i32) -> bool {
    nav_pass & (dir << 12i32) != 0
}

/// Whether a number is one of the four cardinal directions: north, south, east and west are one, two,
/// four and eight.
pub open spec fn is_cardinal(dir: i32) -> bool {
    dir == 1 || dir == 2 || dir == 4 || dir == 8
}

/// Whether a number is one of the vertical directions: up and down are sixteen and thirty-two.
pub open spec fn is_upright(dir: i32) -> bool {
    dir == 16 || dir == 32
}

/// What the bits of a packed value mean.
pub proof fn law_packed_bits(nav_pass: i32, dir: i32, is_flying: bool)
    ensures
        passable(nav_pass, dir, is_flying) == lets_leave(nav_pass, dir, is_flying),
        conditional(nav_pass, dir) == asks_blockers(nav_pass, dir),
        baked(nav_pass) == (nav_pass & 0x4_0000 != 0),
        undecided(nav_pass, dir, is_flying) == (lets_leave(nav_pass, dir, is_flying)
            && asks_blockers(nav_pass, dir)),
{
    assert(dir << 0i32 == dir) by (bit_vector);
}

/// The data that a packed value and the blockers' answers add up to: a cardinal edge is open exactly
/// where the value lets the mover leave and, where it asks the blockers, these let it pass. A flying
/// mover's vertical edges are kept in the same way, twenty-four places up, in a layered search. The
/// turf is simulated where the value says so.
pub proof fn law_resolved_edges_bit_by_bit(
    nav_pass: i32,
    dir: i32,
    is_flying: bool,
    layered: bool,
    passed: i32,
)
    ensures
        ({
            let info = resolved_info(nav_pass, is_flying, layered, passed);
            &&& is_cardinal(dir) ==> (info.open_edges & dir != 0) == (lets_leave(
                nav_pass,
                dir,
                is_flying,
            ) && (asks_blockers(nav_pass, dir) ==> passed & dir != 0))
            &&& is_upright(dir) && layered ==> ((info.open_edges >> 24i32) & dir != 0) == (is_flying
                && lets_leave(nav_pass, dir, true) && (asks_blockers(nav_pass, dir) ==> passed & dir
                != 0))
            &&& info.simulated == (nav_pass & 0x8_0000 != 0)
        }),
{
    law_packed_bits(nav_pass, dir, is_flying);
    law_packed_bits(nav_pass, dir, true);
    if is_cardinal(dir) {
        law_resolved_edges(nav_pass, dir, is_flying, layered, passed);
    }
    if is_upright(dir) && layered {
        law_resolved_vertical_edges(nav_pass, dir, is_flying, passed);
    }
}

/// Whether blockers have a say about some edge that a mover could otherwise take.
pub open spec fn blockers_have_a_say(nav_pass: i32, is_flying: bool) -> bool {
    exists|dir: i32|
        {
            &&& is_cardinal(dir) || is_flying && is_upright(dir)
            &&& #[trigger] lets_leave(nav_pass, dir, is_flying)
            &&& asks_blockers(nav_pass, dir)
        }
}

/// A published value settles a turf exactly where it is baked and no blocker has a say; the edges are
/// then those that the value lets the mover leave by.
pub proof fn law_published_value_settles_a_turf(
    cache: NavPassCache,
    coords: TurfCoords,
    is_flying: bool,
    layered: bool,
    dir: i32,
)
    ensures
        published_info(cache, coords, is_flying, layered) is Some <==> {
            &&& cache@.contains_key(coords)
            &&& cache@[coords] & 0x4_0000 != 0
            &&& !blockers_have_a_say(cache@[coords], is_flying)
        },
        published_info(cache, coords, is_flying, layered) matches Some(info) ==> {
            let nav_pass = cache@[coords];
            &&& is_cardinal(dir) ==> (info.open_edges & dir != 0) == lets_leave(
                nav_pass,
                dir,
                is_flying,
            )
            &&& is_upright(dir) && layered ==> ((info.open_edges >> 24i32) & dir != 0) == (is_flying
                && lets_leave(nav_pass, dir, true))
            &&& info.simulated == (nav_pass & 0x8_0000 != 0)
        },
{
    if cache@.contains_key(coords) {
        let nav_pass = cache@[coords];
        assert forall|d: i32|
            #![trigger lets_leave(nav_pass, d, is_flying)]
            undecided(nav_pass, d, is_flying) == (lets_leave(nav_pass, d, is_flying)
                && asks_blockers(nav_pass, d)) by {
            law_packed_bits(nav_pass, d, is_flying);
        }
        law_packed_bits(nav_pass, dir, is_flying);
        assert(undecided(nav_pass, 1, is_flying) == (lets_leave(nav_pass, 1, is_flying)
            && asks_blockers(nav_pass, 1)));
        assert(undecided(nav_pass, 2, is_flying) == (lets_leave(nav_pass, 2, is_flying)
            && asks_blockers(nav_pass, 2)));
        assert(undecided(nav_pass, 4, is_flying) == (lets_leave(nav_pass, 4, is_flying)
            && asks_blockers(nav_pass, 4)));
        assert(undecided(nav_pass, 8, is_flying) == (lets_leave(nav_pass, 8, is_flying)
            && asks_blockers(nav_pass, 8)));
        assert(undecided(nav_pass, 16, is_flying) == (lets_leave(nav_pass, 16, is_flying)
            && asks_blockers(nav_pass, 16)));
        assert(undecided(nav_pass, 32, is_flying) == (lets_leave(nav_pass, 32, is_flying)
            && asks_blockers(nav_pass, 32)));
        assert(any_undecided(nav_pass, is_flying) == blockers_have_a_say(nav_pass, is_flying));
        if published_info(cache, coords, is_flying, layered) is Some {
            law_resolved_edges_bit_by_bit(nav_pass, dir, is_flying, layered, 0);
            assert(lets_leave(nav_pass, dir, is_flying) && asks_blockers(nav_pass, dir) && (
            is_cardinal(dir) || is_flying && is_upright(dir)) ==> blockers_have_a_say(
                nav_pass,
                is_flying,
            ));
        }
    }
}

} // verus!
