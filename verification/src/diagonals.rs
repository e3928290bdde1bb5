//! How diagonal steps of a finished path are handed out.

use crate::geometry::Coord;
use vstd::prelude::*;

verus! {

/// Numeric mode for preserving diagonals.
pub const DIAGONAL_DO_NOTHING: i32 = 0;

/// Numeric mode for removing every diagonal.
pub const DIAGONAL_REMOVE_ALL: i32 = 1;

/// Numeric mode for removing only clunky diagonals.
pub const DIAGONAL_REMOVE_CLUNKY: i32 = 2;

/// Controls how diagonal steps are returned.
#[derive(Clone, Copy, Debug, PartialEq, Eq, Structural)]
pub enum DiagonalHandling {
    /// Diagonals stay.
    DoNothing,
    /// Every diagonal is replaced by two cardinal steps.
    RemoveAll,
    /// A diagonal whose north/south-first route is blocked is replaced.
    RemoveClunky,
}

impl DiagonalHandling {
    /// Converts a numeric mode; a mode that is missing or unknown preserves diagonals.
    pub fn from_byond(mode: Option<i32>) -> (handling: Self)
        ensures
            handling == if mode == Some(DIAGONAL_REMOVE_ALL) {
                DiagonalHandling::RemoveAll
            } else if mode == Some(DIAGONAL_REMOVE_CLUNKY) {
                DiagonalHandling::RemoveClunky
            } else {
                DiagonalHandling::DoNothing
            },
    {
        match mode.unwrap_or(DIAGONAL_DO_NOTHING) {
            DIAGONAL_REMOVE_ALL => DiagonalHandling::RemoveAll,
            DIAGONAL_REMOVE_CLUNKY => DiagonalHandling::RemoveClunky,
            _ => DiagonalHandling::DoNothing,
        }
    }
}

/// Which of the two cardinal routes around a diagonal can be walked.
#[derive(Clone, Copy, Debug, PartialEq, Eq, Structural)]
pub struct DiagonalRoutes {
    /// Whether north/south-first is valid.
    pub north_south_first: bool,
    /// Whether east/west-first is valid.
    pub east_west_first: bool,
}

/// What becomes of one diagonal step.
#[derive(Clone, Copy, Debug, PartialEq, Eq, Structural)]
pub enum DiagonalVerdict {
    /// The step stays as it is.
    Keep,
    /// The step is replaced; the corner lies north or south of its origin.
    NorthSouthCorner,
    /// The step is replaced; the corner lies east or west of its origin.
    EastWestCorner,
    /// The step would have to be replaced but neither route can be walked.
    Impossible,
}

/// What a mode makes of a diagonal step with the given routes.
pub open spec fn verdict(handling: DiagonalHandling, routes: DiagonalRoutes) -> DiagonalVerdict {
    match handling {
        DiagonalHandling::DoNothing => DiagonalVerdict::Keep,
        DiagonalHandling::RemoveAll => if routes.north_south_first {
            DiagonalVerdict::NorthSouthCorner
        } else if routes.east_west_first {
            DiagonalVerdict::EastWestCorner
        } else {
            DiagonalVerdict::Impossible
        },
        DiagonalHandling::RemoveClunky => if !routes.north_south_first && routes.east_west_first {
            DiagonalVerdict::EastWestCorner
        } else {
            DiagonalVerdict::Keep
        },
    }
}

/// Decides what becomes of a diagonal step.
pub fn diagonal_verdict(handling: DiagonalHandling, routes: DiagonalRoutes) -> (v: DiagonalVerdict)
    ensures
        v == verdict(handling, routes),
{
    match handling {
        DiagonalHandling::DoNothing => DiagonalVerdict::Keep,
        DiagonalHandling::RemoveAll => if routes.north_south_first {
            DiagonalVerdict::NorthSouthCorner
        } else if routes.east_west_first {
            DiagonalVerdict::EastWestCorner
        } else {
            DiagonalVerdict::Impossible
        },
        // A valid north/south-first route keeps the direct diagonal.
        DiagonalHandling::RemoveClunky => if !routes.north_south_first && routes.east_west_first {
            DiagonalVerdict::EastWestCorner
        } else {
            DiagonalVerdict::Keep
        },
    }
}

/// Whether two positions differ along both axes.
pub open spec fn diagonal(from: Coord, to: Coord) -> bool {
    from.0 != to.0 && from.1 != to.1
}

/// The first `steps` steps of a path with their diagonals handled, or nothing if one of them is
/// impossible. `routes[i]` belongs to the step from `nodes[i]` to `nodes[i + 1]`.
pub open spec fn expanded(
    nodes: Seq<Coord>,
    handling: DiagonalHandling,
    routes: Seq<DiagonalRoutes>,
    steps: nat,
) -> Option<Seq<Coord>>
    decreases steps,
{
    if steps == 0 {
        Some(nodes.take(1))
    } else {
        let from = nodes[steps - 1];
        let to = nodes[steps as int];
        match expanded(nodes, handling, routes, (steps - 1) as nat) {
            Some(path) => if diagonal(from, to) {
                match verdict(handling, routes[steps - 1]) {
                    DiagonalVerdict::Keep => Some(path.push(to)),
                    DiagonalVerdict::NorthSouthCorner => Some(path.push((from.0, to.1)).push(to)),
                    DiagonalVerdict::EastWestCorner => Some(path.push((to.0, from.1)).push(to)),
                    DiagonalVerdict::Impossible => None,
                }
            } else {
                Some(path.push(to))
            },
            None => None,
        }
    }
}

/// Whether each diagonal among the first steps got its routes from the given function.
pub open spec fn routes_given<F: Fn(Coord, Coord) -> DiagonalRoutes>(
    nodes: Seq<Coord>,
    routes_for: F,
    routes: Seq<DiagonalRoutes>,
) -> bool {
    forall|i: int|
        0 <= i < routes.len() && diagonal(nodes[i], nodes[i + 1]) ==> call_ensures(
            routes_for,
            (nodes[i], nodes[i + 1]),
            #[trigger] routes[i],
        )
}

/// Whether each diagonal among the first steps got its routes from the given fallible function.
pub open spec fn routes_checked<E, F: Fn(Coord, Coord) -> Result<DiagonalRoutes, E>>(
    nodes: Seq<Coord>,
    routes_for: F,
    routes: Seq<DiagonalRoutes>,
) -> bool {
    forall|i: int|
        0 <= i < routes.len() && diagonal(nodes[i], nodes[i + 1]) ==> call_ensures(
            routes_for,
            (nodes[i], nodes[i + 1]),
            Ok(#[trigger] routes[i]),
        )
}

/// Expands diagonals without fallible lookups.
pub fn expand_diagonals<F: Fn(Coord, Coord) -> DiagonalRoutes>(
    nodes: &[Coord],
    handling: DiagonalHandling,
    routes_for: F,
) -> (path: Option<Vec<Coord>>)
    requires
        forall|i: int, j: int|
            #![trigger nodes@[i], nodes@[j]]
            0 <= i < j <= i + 1 && j < nodes@.len() && diagonal(nodes@[i], nodes@[j])
                ==> call_requires(routes_for, (nodes@[i], nodes@[j])),
    ensures
        match path {
            Some(p) => if nodes@.len() == 0 {
                p@ == Seq::<Coord>::empty()
            } else {
                exists|routes: Seq<DiagonalRoutes>|
                    {
                        &&& routes.len() == nodes@.len() - 1
                        &&& #[trigger] routes_given(nodes@, routes_for, routes)
                        &&& expanded(nodes@, handling, routes, routes.len()) == Some(p@)
                    }
            },
            None => exists|routes: Seq<DiagonalRoutes>|
                {
                    &&& 0 < routes.len() < nodes@.len()
                    &&& #[trigger] routes_given(nodes@, routes_for, routes)
                    &&& expanded(nodes@, handling, routes, routes.len()) is None
                },
        },
{
    if nodes.len() == 0 {
        return Some(Vec::new());
    }
    let mut path: Vec<Coord> = Vec::new();
    path.push(nodes[0]);
    let ghost mut routes = Seq::<DiagonalRoutes>::empty();
    assert(path@ =~= nodes@.take(1));
    let mut at: usize = 1;
    while at < nodes.len()
        invariant
            1 <= at <= nodes@.len(),
            routes.len() == at - 1,
            routes_given(nodes@, routes_for, routes),
            expanded(nodes@, handling, routes, routes.len()) == Some(path@),
            forall|i: int, j: int|
                #![trigger nodes@[i], nodes@[j]]
                0 <= i < j <= i + 1 && j < nodes@.len() && diagonal(nodes@[i], nodes@[j])
                    ==> call_requires(routes_for, (nodes@[i], nodes@[j])),
        decreases nodes@.len() - at,
    {
        let from = nodes[at - 1];
        let to = nodes[at];
        let ghost before = routes;
        if from.0 != to.0 && from.1 != to.1 {
            let found = routes_for(from, to);
            proof {
                routes = routes.push(found);
                lemma_expanded_ignores_later_routes(nodes@, handling, before, routes, before.len());
            }
            match diagonal_verdict(handling, found) {
                DiagonalVerdict::Keep => {},
                DiagonalVerdict::NorthSouthCorner => {
                    path.push((from.0, to.1));
                },
                DiagonalVerdict::EastWestCorner => {
                    path.push((to.0, from.1));
                },
                DiagonalVerdict::Impossible => {
                    assert(routes_given(nodes@, routes_for, routes));
                    return None;
                },
            }
        } else {
            proof {
                routes = routes.push(
                    DiagonalRoutes { north_south_first: false, east_west_first: false },
                );
                lemma_expanded_ignores_later_routes(nodes@, handling, before, routes, before.len());
            }
        }
        path.push(to);
        at = at + 1;
    }
    Some(path)
}

/// Expands diagonals while rechecking passability. The path is given up where a diagonal would
/// have to be replaced and cannot be; a failing recheck is handed on.
pub fn expand_diagonals_checked<F: Fn(Coord, Coord) -> Result<DiagonalRoutes, E>, E>(
    nodes: &[Coord],
    handling: DiagonalHandling,
    routes_for: F,
) -> (path: Result<Option<Vec<Coord>>, E>)
    requires
        forall|i: int, j: int|
            #![trigger nodes@[i], nodes@[j]]
            0 <= i < j <= i + 1 && j < nodes@.len() && diagonal(nodes@[i], nodes@[j])
                ==> call_requires(routes_for, (nodes@[i], nodes@[j])),
    ensures
        match path {
            Ok(Some(p)) => if nodes@.len() == 0 {
                p@ == Seq::<Coord>::empty()
            } else {
                exists|routes: Seq<DiagonalRoutes>|
                    {
                        &&& routes.len() == nodes@.len() - 1
                        &&& #[trigger] routes_checked(nodes@, routes_for, routes)
                        &&& expanded(nodes@, handling, routes, routes.len()) == Some(p@)
                    }
            },
            Ok(None) => exists|routes: Seq<DiagonalRoutes>|
                {
                    &&& 0 < routes.len() < nodes@.len()
                    &&& #[trigger] routes_checked(nodes@, routes_for, routes)
                    &&& expanded(nodes@, handling, routes, routes.len()) is None
                },
            Err(e) => exists|routes: Seq<DiagonalRoutes>|
                {
                    let k = routes.len() as int;
                    &&& k < nodes@.len() - 1
                    &&& #[trigger] routes_checked(nodes@, routes_for, routes)
                    &&& expanded(nodes@, handling, routes, routes.len()) is Some
                    &&& diagonal(nodes@[k], nodes@[k + 1])
                    &&& call_ensures(
                        routes_for,
                        (nodes@[k], nodes@[k + 1]),
                        Err::<DiagonalRoutes, E>(e),
                    )
                },
        },
{
    if nodes.len() == 0 {
        return Ok(Some(Vec::new()));
    }
    let mut path: Vec<Coord> = Vec::new();
    path.push(nodes[0]);
    let ghost mut routes = Seq::<DiagonalRoutes>::empty();
    assert(path@ =~= nodes@.take(1));
    let mut at: usize = 1;
    while at < nodes.len()
        invariant
            1 <= at <= nodes@.len(),
            routes.len() == at - 1,
            routes_checked(nodes@, routes_for, routes),
            expanded(nodes@, handling, routes, routes.len()) == Some(path@),
            forall|i: int, j: int|
                #![trigger nodes@[i], nodes@[j]]
                0 <= i < j <= i + 1 && j < nodes@.len() && diagonal(nodes@[i], nodes@[j])
                    ==> call_requires(routes_for, (nodes@[i], nodes@[j])),
        decreases nodes@.len() - at,
    {
        let from = nodes[at - 1];
        let to = nodes[at];
        let ghost before = routes;
        if from.0 != to.0 && from.1 != to.1 {
            let found = match routes_for(from, to) {
                Ok(found) => found,
                Err(e) => {
                    return Err(e);
                },
            };
            proof {
                routes = routes.push(found);
                lemma_expanded_ignores_later_routes(nodes@, handling, before, routes, before.len());
            }
            match diagonal_verdict(handling, found) {
                DiagonalVerdict::Keep => {},
                DiagonalVerdict::NorthSouthCorner => {
                    path.push((from.0, to.1));
                },
                DiagonalVerdict::EastWestCorner => {
                    path.push((to.0, from.1));
                },
                DiagonalVerdict::Impossible => {
                    assert(routes_checked(nodes@, routes_for, routes));
                    return Ok(None);
                },
            }
        } else {
            proof {
                routes = routes.push(
                    DiagonalRoutes { north_south_first: false, east_west_first: false },
                );
                lemma_expanded_ignores_later_routes(nodes@, handling, before, routes, before.len());
            }
        }
        path.push(to);
        at = at + 1;
    }
    Ok(Some(path))
}

/// Only the routes of the steps taken matter.
proof fn lemma_expanded_ignores_later_routes(
    nodes: Seq<Coord>,
    handling: DiagonalHandling,
    a: Seq<DiagonalRoutes>,
    b: Seq<DiagonalRoutes>,
    steps: nat,
)
    requires
        forall|i: int| 0 <= i < steps ==> a[i] == b[i],
    ensures
        expanded(nodes, handling, a, steps) == expanded(nodes, handling, b, steps),
    decreases steps,
{
    if steps > 0 {
        lemma_expanded_ignores_later_routes(nodes, handling, a, b, (steps - 1) as nat);
    }
}

/// Preserving diagonals hands the path out unchanged.
pub proof fn law_do_nothing_keeps_the_path(
    nodes: Seq<Coord>,
    routes: Seq<DiagonalRoutes>,
    steps: nat,
)
    requires
        steps < nodes.len(),
    ensures
        expanded(nodes, DiagonalHandling::DoNothing, routes, steps) == Some(
            nodes.take(steps as int + 1),
        ),
    decreases steps,
{
    if steps > 0 {
        law_do_nothing_keeps_the_path(nodes, routes, (steps - 1) as nat);
        assert(nodes.take(steps as int).push(nodes[steps as int]) =~= nodes.take(steps as int + 1));
    }
}

/// Whatever the mode, an expanded path starts and ends where the path does.
pub proof fn law_expansion_keeps_the_ends(
    nodes: Seq<Coord>,
    handling: DiagonalHandling,
    routes: Seq<DiagonalRoutes>,
    steps: nat,
)
    requires
        steps < nodes.len(),
    ensures
        expanded(nodes, handling, routes, steps) matches Some(path) ==> path.len() > steps
            && path[0] == nodes[0] && path.last() == nodes[steps as int],
    decreases steps,
{
    if steps > 0 {
        law_expansion_keeps_the_ends(nodes, handling, routes, (steps - 1) as nat);
    }
}

/// Removing every diagonal leaves none.
pub proof fn law_remove_all_leaves_no_diagonal(
    nodes: Seq<Coord>,
    routes: Seq<DiagonalRoutes>,
    steps: nat,
)
    requires
        steps < nodes.len(),
    ensures
        expanded(nodes, DiagonalHandling::RemoveAll, routes, steps) matches Some(path)
            ==> forall|i: int, j: int|
            #![trigger path[i], path[j]]
            0 <= i < j <= i + 1 && j < path.len() ==> !diagonal(path[i], path[j]),
    decreases steps,
{
    if steps > 0 {
        law_remove_all_leaves_no_diagonal(nodes, routes, (steps - 1) as nat);
        law_expansion_keeps_the_ends(
            nodes,
            DiagonalHandling::RemoveAll,
            routes,
            (steps - 1) as nat,
        );
        if let Some(path) = expanded(nodes, DiagonalHandling::RemoveAll, routes, steps) {
            let before = expanded(
                nodes,
                DiagonalHandling::RemoveAll,
                routes,
                (steps - 1) as nat,
            ).unwrap();
            assert forall|i: int, j: int|
                #![trigger path[i], path[j]]
                0 <= i < j <= i + 1 && j < path.len() implies !diagonal(path[i], path[j]) by {
                if j < before.len() {
                    assert(path[i] == before[i] && path[j] == before[j]);
                }
            }
        }
    }
}

/// Whether the step from a node of a path to the next is diagonal and neither route around it is
/// open.
pub open spec fn has_no_route(nodes: Seq<Coord>, routes: Seq<DiagonalRoutes>, i: int) -> bool {
    &&& nodes[i].0 != nodes[i + 1].0 && nodes[i].1 != nodes[i + 1].1
    &&& !routes[i].north_south_first && !routes[i].east_west_first
}

/// A path is given up exactly where every diagonal has to be replaced and one of them has no route.
pub proof fn law_only_a_diagonal_without_a_route_is_impossible(
    nodes: Seq<Coord>,
    handling: DiagonalHandling,
    routes: Seq<DiagonalRoutes>,
    steps: nat,
)
    ensures
        expanded(nodes, handling, routes, steps) is None <==> {
            &&& handling == DiagonalHandling::RemoveAll
            &&& exists|i: int| 0 <= i < steps && #[trigger] has_no_route(nodes, routes, i)
        },
    decreases steps,
{
    if steps > 0 {
        let last = steps - 1;
        law_only_a_diagonal_without_a_route_is_impossible(nodes, handling, routes, last as nat);
        if expanded(nodes, handling, routes, last as nat) is None {
            let i = choose|i: int| 0 <= i < last && #[trigger] has_no_route(nodes, routes, i);
            assert(0 <= i < steps);
        } else if expanded(nodes, handling, routes, steps) is None {
            assert(has_no_route(nodes, routes, last));
        }
    }
}

/// Each step of a path adds its end, and before it the corner by which it goes: where every diagonal
/// is replaced, the one to the north or south if that route is open and the one to the east or west
/// otherwise; where only clunky ones are, the one to the east or west if that is the only route.
pub proof fn law_expansion_adds_corner_and_end(
    nodes: Seq<Coord>,
    handling: DiagonalHandling,
    routes: Seq<DiagonalRoutes>,
    steps: nat,
)
    requires
        steps + 1 < nodes.len(),
    ensures
        expanded(nodes, handling, routes, 0) == Some(seq![nodes[0]]),
        expanded(nodes, handling, routes, steps + 1) matches Some(path) ==> {
            let from = nodes[steps as int];
            let to = nodes[steps as int + 1];
            let turns = from.0 != to.0 && from.1 != to.1;
            let along_y = routes[steps as int].north_south_first;
            let along_x = routes[steps as int].east_west_first;
            &&& expanded(nodes, handling, routes, steps) matches Some(before) && path == before
                + if turns && handling == DiagonalHandling::RemoveAll && along_y {
                seq![(from.0, to.1), to]
            } else if turns && handling != DiagonalHandling::DoNothing && !along_y && along_x {
                seq![(to.0, from.1), to]
            } else {
                seq![to]
            }
        },
{
    assert(nodes.take(1) =~= seq![nodes[0]]);
    if let Some(path) = expanded(nodes, handling, routes, steps + 1) {
        let before = expanded(nodes, handling, routes, steps).unwrap();
        let from = nodes[steps as int];
        let to = nodes[steps as int + 1];
        assert(before.push(to) =~= before + seq![to]);
        assert(before.push((from.0, to.1)).push(to) =~= before + seq![(from.0, to.1), to]);
        assert(before.push((to.0, from.1)).push(to) =~= before + seq![(to.0, from.1), to]);
    }
}

/// Leaving out the first turf leaves out nothing else.
pub proof fn law_skipping_leaves_out_the_first<T>(items: Seq<T>)
    ensures
        skipped(items, false) == items,
        items.len() == 0 ==> skipped(items, true) == items,
        items.len() > 0 ==> seq![items[0]] + skipped(items, true) == items,
{
    if items.len() > 0 {
        assert(seq![items[0]] + skipped(items, true) =~= items);
    }
}

/// The modes of diagonal handling have the numbers one and two; any other number, or none, leaves
/// diagonals as they are.
pub proof fn law_modes_are_numbered()
    ensures
        DIAGONAL_REMOVE_ALL == 1,
        DIAGONAL_REMOVE_CLUNKY == 2,
        DIAGONAL_DO_NOTHING == 0,
{
}

/// Every replaced diagonal goes by way of a corner that the routes allow.
pub proof fn law_corners_are_walkable(handling: DiagonalHandling, routes: DiagonalRoutes)
    ensures
        verdict(handling, routes) == DiagonalVerdict::NorthSouthCorner ==> routes.north_south_first,
        verdict(handling, routes) == DiagonalVerdict::EastWestCorner ==> routes.east_west_first
            && !routes.north_south_first,
{
}

/// What is left of a path once its starting node has been removed where that is requested.
pub open spec fn skipped<T>(nodes: Seq<T>, skip_first: bool) -> Seq<T> {
    if skip_first && nodes.len() > 0 {
        nodes.subrange(1, nodes.len() as int)
    } else {
        nodes
    }
}

/// Removes the first item of a list when requested.
pub fn skip_first_item<T>(items: Vec<T>, skip_first: bool) -> (rest: Vec<T>)
    ensures
        rest@ == skipped(items@, skip_first),
{
    let mut rest = items;
    if skip_first && rest.len() > 0 {
        rest.remove(0);
        assert(rest@ =~= items@.subrange(1, items@.len() as int));
    }
    rest
}

/// Removes the starting node when requested.
pub fn apply_skip_first(nodes: Vec<Coord>, skip_first: bool) -> (rest: Vec<Coord>)
    ensures
        rest@ == skipped(nodes@, skip_first),
{
    skip_first_item(nodes, skip_first)
}

/// The routes that an expansion goes by are those that the function gave for the diagonal in
/// question.
pub proof fn law_routes_come_from_the_function<F: Fn(Coord, Coord) -> DiagonalRoutes>(
    nodes: Seq<Coord>,
    routes_for: F,
    routes: Seq<DiagonalRoutes>,
    i: int,
)
    requires
        routes_given(nodes, routes_for, routes),
        0 <= i < routes.len(),
        nodes[i].0 != nodes[i + 1].0 && nodes[i].1 != nodes[i + 1].1,
    ensures
        call_ensures(routes_for, (nodes[i], nodes[i + 1]), routes[i]),
{
}

/// The routes that an expansion goes by are those that the fallible function gave for the diagonal in
/// question.
pub proof fn law_checked_routes_come_from_the_function<
    E,
    F: Fn(Coord, Coord) -> Result<DiagonalRoutes, E>,
>(nodes: Seq<Coord>, routes_for: F, routes: Seq<DiagonalRoutes>, i: int)
    requires
        routes_checked(nodes, routes_for, routes),
        0 <= i < routes.len(),
        nodes[i].0 != nodes[i + 1].0 && nodes[i].1 != nodes[i + 1].1,
    ensures
        call_ensures(routes_for, (nodes[i], nodes[i + 1]), Ok(routes[i])),
{
}

} // verus!
