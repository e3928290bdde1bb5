//! What a mover can do across levels, told from the map, the topology and the links alone: which
//! nodes it may stand on, which moves it can make and what ways lead to a target. The multi-level
//! search is held to this.

use crate::diagonals::{DiagonalHandling, DiagonalRoutes};
use crate::directions::{step, DOWN, STEP_COUNT, UP};
use crate::geometry::{Coord, LayeredNode, TurfCoords};
use crate::grid::on_grid;
use crate::layered_grid::{
    beside, indexed_at, indexes, law_more_turfs_keep_layered_successors,
    lemma_equivalent_layered_successors, lemma_layered_successors_bounds, links_leaving,
    next_layer, step_node, LayeredAction, LayeredGrid, LayeredTurfs, Request, Successor,
};
use crate::multi_search::{
    has_no_route, law_layered_expansion_adds_corner_and_end,
    law_only_a_layered_diagonal_without_a_route_is_impossible, layered_expansion,
    layered_rechecked, lemma_one_way_back, on_list, retraces, steady_edges, turning,
    MultiSearchJob,
};
use crate::nav_pass::TurfInfo;
use crate::topology::NavLink;
use crate::walks::is_walk;
use crate::world::{edge_along_x, edge_along_y, place_of, within};
use vstd::prelude::*;

verus! {

/// The horizontal position of a node.
pub open spec fn spot(node: LayeredNode) -> Coord {
    (node.x, node.y)
}

/// Whether a mover may stand on a node: its turf exists, is simulated where that is asked for, is
/// not the one to avoid, and lies in horizontal range of the start where there is a range.
pub open spec fn may_stand(grid: LayeredGrid, turfs: LayeredTurfs, at: LayeredNode) -> bool {
    &&& turfs.contains_key(at)
    &&& turfs[at] matches Some(info) && (grid.simulated_only ==> info.simulated)
    &&& grid.avoid != Some(at)
    &&& grid.max_range > 0 ==> within(spot(at), spot(grid.start), grid.max_range as int)
}

/// Whether the turf at a node exists and its edges include one with the given bit.
pub open spec fn has_edge(turfs: LayeredTurfs, at: LayeredNode, bit: i32) -> bool {
    turfs.contains_key(at) && (turfs[at] matches Some(info) && info.open_edges & bit != 0)
}

/// Whether the turf at a node exists and its vertical edges, kept above the twenty-fourth bit,
/// include one with the given bit.
pub open spec fn has_vertical_edge(turfs: LayeredTurfs, at: LayeredNode, bit: i32) -> bool {
    turfs.contains_key(at) && (turfs[at] matches Some(info) && (info.open_edges >> 24i32) & bit
        != 0)
}

/// Whether a mover can go to a diagonal neighbour by way of the corner north or south of it.
pub open spec fn goes_along_y_first(
    grid: LayeredGrid,
    turfs: LayeredTurfs,
    from: LayeredNode,
    to: LayeredNode,
) -> bool {
    let corner = LayeredNode { x: from.x, y: to.y, ..from };
    &&& has_edge(turfs, from, edge_along_y(spot(from), spot(to)))
    &&& may_stand(grid, turfs, corner)
    &&& has_edge(turfs, corner, edge_along_x(spot(from), spot(to)))
    &&& may_stand(grid, turfs, to)
}

/// Whether a mover can go to a diagonal neighbour by way of the corner east or west of it.
pub open spec fn goes_along_x_first(
    grid: LayeredGrid,
    turfs: LayeredTurfs,
    from: LayeredNode,
    to: LayeredNode,
) -> bool {
    let corner = LayeredNode { x: to.x, y: from.y, ..from };
    &&& has_edge(turfs, from, edge_along_x(spot(from), spot(to)))
    &&& may_stand(grid, turfs, corner)
    &&& has_edge(turfs, corner, edge_along_y(spot(from), spot(to)))
    &&& may_stand(grid, turfs, to)
}

/// Whether a mover can step from one node to another of the same level at a cost.
pub open spec fn can_step(
    grid: LayeredGrid,
    turfs: LayeredTurfs,
    from: LayeredNode,
    to: LayeredNode,
    cost: nat,
) -> bool {
    let dx = to.x - from.x;
    let dy = to.y - from.y;
    &&& to.group == from.group
    &&& to.layer == from.layer
    &&& {
        ||| {
            &&& dx == 0 && (dy == 1 || dy == -1)
            &&& has_edge(turfs, from, edge_along_y(spot(from), spot(to)))
            &&& may_stand(grid, turfs, to)
            &&& cost == 10
        }
        ||| {
            &&& dy == 0 && (dx == 1 || dx == -1)
            &&& has_edge(turfs, from, edge_along_x(spot(from), spot(to)))
            &&& may_stand(grid, turfs, to)
            &&& cost == 10
        }
        ||| {
            &&& (dx == 1 || dx == -1) && (dy == 1 || dy == -1)
            &&& goes_along_y_first(grid, turfs, from, to) || goes_along_x_first(
                grid,
                turfs,
                from,
                to,
            )
            &&& cost == 14
        }
    }
}

/// Whether a mover can change the layer: it flies, and the edge upward (sixteen) or downward
/// (thirty-two) is open.
pub open spec fn can_change_layer(
    grid: LayeredGrid,
    turfs: LayeredTurfs,
    from: LayeredNode,
    to: LayeredNode,
    cost: nat,
    dir: i32,
) -> bool {
    &&& grid.is_flying
    &&& to.group == from.group && to.x == from.x && to.y == from.y
    &&& {
        ||| to.layer == from.layer + 1 && dir == 16
        ||| to.layer == from.layer - 1 && dir == 32
    }
    &&& has_vertical_edge(turfs, from, dir)
    &&& may_stand(grid, turfs, to)
    &&& cost == 10
}

/// Whether a link leads from one node to another: it is registered at the node's world position,
/// its destination has the other node's place, and a mover may stand there.
pub open spec fn link_leads(
    grid: LayeredGrid,
    turfs: LayeredTurfs,
    from: LayeredNode,
    to: LayeredNode,
    link: NavLink,
) -> bool {
    let levels = grid.topology.layer_to_z@;
    let places = grid.topology.z_to_layer@;
    &&& levels.contains_key((from.group, from.layer))
    &&& {
        let source = (from.x, from.y, levels[(from.group, from.layer)]);
        &&& grid.links_by_source@.contains_key(source)
        &&& grid.links_by_source@[source]@.contains(link)
    }
    &&& places.contains_key(link.destination.2)
    &&& places[link.destination.2].group == to.group
    &&& places[link.destination.2].layer == to.layer
    &&& to.x == link.destination.0
    &&& to.y == link.destination.1
    &&& may_stand(grid, turfs, to)
}

/// Whether a mover can get from one node to another in one move, at a cost and by an action, if it
/// may plan to take the links that `may_plan` lets it.
pub open spec fn can_move(
    grid: LayeredGrid,
    turfs: LayeredTurfs,
    may_plan: spec_fn(u64) -> bool,
    from: LayeredNode,
    to: LayeredNode,
    cost: nat,
    action: LayeredAction,
) -> bool {
    &&& turfs.contains_key(from) && turfs[from] is Some
    &&& match action {
        LayeredAction::Plain => can_step(grid, turfs, from, to, cost),
        LayeredAction::Vertical(dir) => can_change_layer(grid, turfs, from, to, cost, dir),
        LayeredAction::Link(id) => may_plan(id) && exists|link: NavLink| #[trigger]
            link_leads(grid, turfs, from, to, link) && link.id == id && link.cost == cost,
    }
}

/// A node can be occupied exactly where a mover may stand on it; it is not known whether it can
/// exactly where it has not been looked up and nothing else speaks against it.
pub proof fn law_occupied_where_one_may_stand(
    grid: LayeredGrid,
    turfs: LayeredTurfs,
    at: LayeredNode,
)
    ensures
        (grid.occupiable(turfs, at) matches Ok(Some(_))) <==> may_stand(grid, turfs, at),
        grid.occupiable(turfs, at) matches Ok(Some(info)) ==> turfs[at] == Some(info),
        grid.occupiable(turfs, at) matches Err(missing) ==> missing == Request::Turf(at)
            && !turfs.contains_key(at),
        grid.occupiable(turfs, at) is Err <==> {
            &&& !turfs.contains_key(at)
            &&& grid.avoid != Some(at)
            &&& grid.max_range > 0 ==> within(spot(at), spot(grid.start), grid.max_range as int)
        },
{
}

/// The routes around a diagonal are those that can be gone, corner by corner.
pub proof fn law_routes_are_those_around_the_corners(
    grid: LayeredGrid,
    turfs: LayeredTurfs,
    from: LayeredNode,
    to: LayeredNode,
)
    ensures
        grid.routes(turfs, from, to) matches Ok(routes) ==> {
            &&& routes.north_south_first == goes_along_y_first(grid, turfs, from, to)
            &&& routes.east_west_first == goes_along_x_first(grid, turfs, from, to)
        },
        grid.routes(turfs, from, to) matches Err(missing) ==> (missing matches Request::Turf(node)
            && !turfs.contains_key(node) && {
            ||| node == from
            ||| node == to
            ||| node == LayeredNode { x: from.x, y: to.y, ..from }
            ||| node == LayeredNode { x: to.x, y: from.y, ..from }
        }),
{
    law_occupied_where_one_may_stand(grid, turfs, to);
    law_occupied_where_one_may_stand(grid, turfs, beside(from, from.x, to.y));
    law_occupied_where_one_may_stand(grid, turfs, beside(from, to.x, from.y));
}

/// One of the eight steps can be walked exactly where it can be taken.
proof fn lemma_walkable(
    grid: LayeredGrid,
    turfs: LayeredTurfs,
    source: TurfInfo,
    from: LayeredNode,
    k: int,
    to: LayeredNode,
)
    requires
        0 <= k < 8,
        to.group == from.group,
        to.layer == from.layer,
        place_of(spot(from), spot(to)) == k,
        turfs.contains_key(from),
        turfs[from] == Some(source),
    ensures
        to == step_node(from, k),
        grid.walkable(turfs, source, from, k) is Ok ==> (grid.walkable(turfs, source, from, k)
            == Ok::<bool, Request>(true) <==> can_step(
            grid,
            turfs,
            from,
            to,
            if k < 4 {
                10
            } else {
                14
            },
        )),
{
    law_occupied_where_one_may_stand(grid, turfs, to);
    law_routes_are_those_around_the_corners(grid, turfs, from, to);
}

/// The steps listed are exactly those among the first `count` that can be taken, in order.
proof fn lemma_steps_upto(
    grid: LayeredGrid,
    turfs: LayeredTurfs,
    source: TurfInfo,
    from: LayeredNode,
    count: nat,
    item: Successor,
)
    requires
        count <= STEP_COUNT,
        turfs.contains_key(from),
        turfs[from] == Some(source),
        grid.steps_upto(turfs, source, from, count) is Ok,
    ensures
        grid.steps_upto(turfs, source, from, count)->Ok_0.contains(item) <==> {
            &&& item.2 == LayeredAction::Plain
            &&& can_step(grid, turfs, from, item.0, item.1 as nat)
            &&& place_of(spot(from), spot(item.0)) < count
        },
    decreases count,
{
    let out = grid.steps_upto(turfs, source, from, count)->Ok_0;
    if count > 0 {
        let k = count - 1;
        lemma_steps_upto(grid, turfs, source, from, (count - 1) as nat, item);
        let before = grid.steps_upto(turfs, source, from, (count - 1) as nat)->Ok_0;
        let to = step_node(from, k);
        if on_grid(from.coord(), k) {
            assert(place_of(spot(from), spot(to)) == k);
            lemma_walkable(grid, turfs, source, from, k, to);
        }
        if before.contains(item) {
            let i = choose|i: int| 0 <= i < before.len() && before[i] == item;
            assert(out[i] == item);
        }
        if out.contains(item) && !before.contains(item) {
            let i = choose|i: int| 0 <= i < out.len() && out[i] == item;
            assert(i == before.len());
        }
        if can_step(grid, turfs, from, item.0, item.1 as nat) && place_of(
            spot(from),
            spot(item.0),
        ) == k && item.2 == LayeredAction::Plain {
            assert(item.0 == to);
            lemma_walkable(grid, turfs, source, from, k, item.0);
            assert(item == (to, step(k).cost, LayeredAction::Plain));
            assert(out[out.len() - 1] == item);
        }
    } else {
        assert(out.len() == 0);
        lemma_place_of_step(grid, turfs, from, item.0, item.1 as nat);
    }
}

/// A step has its place among the eight.
proof fn lemma_place_of_step(
    grid: LayeredGrid,
    turfs: LayeredTurfs,
    from: LayeredNode,
    to: LayeredNode,
    cost: nat,
)
    ensures
        0 <= place_of(spot(from), spot(to)) <= 8,
        can_step(grid, turfs, from, to, cost) ==> place_of(spot(from), spot(to)) < 8,
{
}

/// The changes of layer listed are exactly those that can be made.
proof fn lemma_verticals(
    grid: LayeredGrid,
    turfs: LayeredTurfs,
    source: TurfInfo,
    from: LayeredNode,
    item: Successor,
)
    requires
        turfs.contains_key(from),
        turfs[from] == Some(source),
        grid.verticals(turfs, source, from) is Ok,
    ensures
        grid.verticals(turfs, source, from)->Ok_0.contains(item) <==> (item.2 matches LayeredAction::Vertical(
            dir,
        ) && can_change_layer(grid, turfs, from, item.0, item.1 as nat, dir)),
{
    let out = grid.verticals(turfs, source, from)->Ok_0;
    if grid.is_flying {
        let up = grid.vertical(turfs, source, from, UP)->Ok_0;
        let down = grid.vertical(turfs, source, from, DOWN)->Ok_0;
        assert(out == up + down);
        let above = LayeredNode { layer: next_layer(from.layer, UP) as i16, ..from };
        let below = LayeredNode { layer: next_layer(from.layer, DOWN) as i16, ..from };
        law_occupied_where_one_may_stand(grid, turfs, above);
        law_occupied_where_one_may_stand(grid, turfs, below);
        if up.len() > 0 {
            assert(out[0] == up[0]);
            assert(up[0] == (above, 10u32, LayeredAction::Vertical(16)));
        }
        if down.len() > 0 {
            assert(out[up.len() as int] == down[0]);
            assert(down[0] == (below, 10u32, LayeredAction::Vertical(32)));
        }
        if out.contains(item) {
            let i = choose|i: int| 0 <= i < out.len() && out[i] == item;
            assert(i == 0 || i == 1);
        }
        if let LayeredAction::Vertical(dir) = item.2 {
            if can_change_layer(grid, turfs, from, item.0, item.1 as nat, dir) {
                if dir == 16 {
                    assert(item.0 == above);
                    assert(up.len() == 1);
                } else {
                    assert(item.0 == below);
                    assert(down.len() == 1);
                }
            }
        }
    } else {
        assert(out.len() == 0);
    }
}

/// Whether a link among the first `count` of a list leads to a node with the given cost and may be
/// planned.
spec fn link_among(
    grid: LayeredGrid,
    turfs: LayeredTurfs,
    may_plan: spec_fn(u64) -> bool,
    links: Seq<NavLink>,
    count: int,
    item: Successor,
) -> bool {
    exists|i: int|
        {
            &&& 0 <= i < count
            &&& grid.topology.node((#[trigger] links[i]).destination) == Some(item.0)
            &&& may_stand(grid, turfs, item.0)
            &&& item.1 == links[i].cost
            &&& item.2 == LayeredAction::Link(links[i].id)
            &&& may_plan(links[i].id)
        }
}

/// How many links among the first `count` are asked about.
spec fn asked(grid: LayeredGrid, turfs: LayeredTurfs, links: Seq<NavLink>, count: nat) -> nat
    decreases count,
{
    if count == 0 {
        0
    } else {
        let before = asked(grid, turfs, links, (count - 1) as nat);
        match grid.topology.node(links[count - 1].destination) {
            Some(to) => if may_stand(grid, turfs, to) {
                before + 1
            } else {
                before
            },
            None => before,
        }
    }
}

proof fn lemma_steady_replies_grow(
    grid: LayeredGrid,
    turfs: LayeredTurfs,
    may_plan: spec_fn(u64) -> bool,
    links: Seq<NavLink>,
    count: nat,
    more: nat,
)
    requires
        count <= more,
    ensures
        grid.steady_replies(turfs, may_plan, links, count).is_prefix_of(
            grid.steady_replies(turfs, may_plan, links, more),
        ),
        grid.steady_replies(turfs, may_plan, links, count).len() == asked(
            grid,
            turfs,
            links,
            count,
        ),
    decreases more,
{
    if count < more {
        lemma_steady_replies_grow(grid, turfs, may_plan, links, count, (more - 1) as nat);
    } else if count > 0 {
        lemma_steady_replies_grow(
            grid,
            turfs,
            may_plan,
            links,
            (count - 1) as nat,
            (count - 1) as nat,
        );
        if let Some(to) = grid.topology.node(links[count - 1].destination) {
            law_occupied_where_one_may_stand(grid, turfs, to);
        }
    }
}

/// The links listed are exactly those among the first `count` that lead to where one may stand and
/// that may be planned.
proof fn lemma_links_upto(
    grid: LayeredGrid,
    turfs: LayeredTurfs,
    may_plan: spec_fn(u64) -> bool,
    replies: Seq<bool>,
    links: Seq<NavLink>,
    count: nat,
    item: Successor,
)
    requires
        count <= links.len(),
        replies == grid.steady_replies(turfs, may_plan, links, links.len()),
        grid.links_upto(turfs, replies, links, count) is Ok,
    ensures
        ({
            let (out, questions) = grid.links_upto(turfs, replies, links, count)->Ok_0;
            &&& out.contains(item) <==> link_among(
                grid,
                turfs,
                may_plan,
                links,
                count as int,
                item,
            )
            &&& questions == asked(grid, turfs, links, count)
        }),
    decreases count,
{
    let (out, questions) = grid.links_upto(turfs, replies, links, count)->Ok_0;
    if count > 0 {
        let last = count - 1;
        lemma_links_upto(grid, turfs, may_plan, replies, links, last as nat, item);
        let (before, earlier) = grid.links_upto(turfs, replies, links, last as nat)->Ok_0;
        let link = links[last];
        if let Some(to) = grid.topology.node(link.destination) {
            law_occupied_where_one_may_stand(grid, turfs, to);
            lemma_steady_replies_grow(grid, turfs, may_plan, links, last as nat, links.len());
            lemma_steady_replies_grow(grid, turfs, may_plan, links, count, links.len());
            if may_stand(grid, turfs, to) {
                let upto = grid.steady_replies(turfs, may_plan, links, count);
                assert(upto[earlier as int] == may_plan(link.id));
                assert(replies[earlier as int] == may_plan(link.id));
            }
        }
        if before.contains(item) {
            let i = choose|i: int| 0 <= i < before.len() && before[i] == item;
            assert(out[i] == item);
        }
        if out.contains(item) && !before.contains(item) {
            let i = choose|i: int| 0 <= i < out.len() && out[i] == item;
            assert(i == before.len());
            assert(grid.topology.node(links[last].destination) == Some(item.0));
        }
        if link_among(grid, turfs, may_plan, links, count as int, item) && !link_among(
            grid,
            turfs,
            may_plan,
            links,
            last,
            item,
        ) {
            let i = choose|i: int|
                {
                    &&& 0 <= i < count
                    &&& grid.topology.node((#[trigger] links[i]).destination) == Some(item.0)
                    &&& may_stand(grid, turfs, item.0)
                    &&& item.1 == links[i].cost
                    &&& item.2 == LayeredAction::Link(links[i].id)
                    &&& may_plan(links[i].id)
                };
            assert(i == last);
            assert(out[out.len() - 1] == item);
        }
        if link_among(grid, turfs, may_plan, links, last, item) {
            let i = choose|i: int|
                {
                    &&& 0 <= i < last
                    &&& grid.topology.node((#[trigger] links[i]).destination) == Some(item.0)
                    &&& may_stand(grid, turfs, item.0)
                    &&& item.1 == links[i].cost
                    &&& item.2 == LayeredAction::Link(links[i].id)
                    &&& may_plan(links[i].id)
                };
            assert(0 <= i < count);
        }
    } else {
        assert(out.len() == 0);
    }
}

/// Where it is settled what can be reached from a node, and questions about links are always
/// answered alike, the successors are exactly the moves that can be made.
pub proof fn law_successors_are_the_possible_moves(
    grid: LayeredGrid,
    turfs: LayeredTurfs,
    may_plan: spec_fn(u64) -> bool,
    from: LayeredNode,
    item: Successor,
)
    requires
        grid.steady_successors(turfs, may_plan, from) is Ok,
    ensures
        grid.steady_successors(turfs, may_plan, from)->Ok_0.contains(item) <==> can_move(
            grid,
            turfs,
            may_plan,
            from,
            item.0,
            item.1 as nat,
            item.2,
        ),
{
    let out = grid.steady_successors(turfs, may_plan, from)->Ok_0;
    if turfs.contains_key(from) && turfs[from] is Some {
        let source = turfs[from].unwrap();
        let links = grid.links_at(from);
        let replies = grid.steady_replies(turfs, may_plan, links, links.len());
        let steps = grid.steps_upto(turfs, source, from, STEP_COUNT as nat)->Ok_0;
        let verticals = grid.verticals(turfs, source, from)->Ok_0;
        let (others, questions) = grid.links_upto(turfs, replies, links, links.len())->Ok_0;
        lemma_steps_upto(grid, turfs, source, from, STEP_COUNT as nat, item);
        lemma_place_of_step(grid, turfs, from, item.0, item.1 as nat);
        lemma_verticals(grid, turfs, source, from, item);
        lemma_links_upto(grid, turfs, may_plan, replies, links, links.len(), item);
        lemma_contained_in_one_part(steps, verticals, others, item);
        assert(out == steps + verticals + others);
        if link_among(grid, turfs, may_plan, links, links.len() as int, item) {
            let i = choose|i: int|
                {
                    &&& 0 <= i < links.len()
                    &&& grid.topology.node((#[trigger] links[i]).destination) == Some(item.0)
                    &&& may_stand(grid, turfs, item.0)
                    &&& item.1 == links[i].cost
                    &&& item.2 == LayeredAction::Link(links[i].id)
                    &&& may_plan(links[i].id)
                };
            assert(links.contains(links[i]));
            assert(link_leads(grid, turfs, from, item.0, links[i]));
        }
        if let LayeredAction::Link(id) = item.2 {
            if can_move(grid, turfs, may_plan, from, item.0, item.1 as nat, item.2) {
                let link = choose|link: NavLink| #[trigger]
                    link_leads(grid, turfs, from, item.0, link) && link.id == id && link.cost
                        == item.1;
                let i = choose|i: int| 0 <= i < links.len() && links[i] == link;
                assert(grid.topology.node(links[i].destination) == Some(item.0));
                assert(link_among(grid, turfs, may_plan, links, links.len() as int, item));
            }
        }
    } else {
        assert(out.len() == 0);
    }
}

proof fn lemma_contained_in_one_part(
    a: Seq<Successor>,
    b: Seq<Successor>,
    c: Seq<Successor>,
    item: Successor,
)
    ensures
        (a + b + c).contains(item) <==> a.contains(item) || b.contains(item) || c.contains(item),
{
    let all = a + b + c;
    if a.contains(item) {
        let i = choose|i: int| 0 <= i < a.len() && a[i] == item;
        assert(all[i] == item);
    }
    if b.contains(item) {
        let i = choose|i: int| 0 <= i < b.len() && b[i] == item;
        assert(all[a.len() + i] == item);
    }
    if c.contains(item) {
        let i = choose|i: int| 0 <= i < c.len() && c[i] == item;
        assert(all[a.len() + b.len() + i] == item);
    }
    if all.contains(item) {
        let i = choose|i: int| 0 <= i < all.len() && all[i] == item;
        if i < a.len() {
            assert(a[i] == item);
        } else if i < a.len() + b.len() {
            assert(b[i - a.len()] == item);
        } else {
            assert(c[i - a.len() - b.len()] == item);
        }
    }
}

proof fn lemma_any_link_leads(
    grid: LayeredGrid,
    turfs: LayeredTurfs,
    replies: Seq<bool>,
    links: Seq<NavLink>,
    count: nat,
    item: Successor,
)
    requires
        count <= links.len(),
        grid.links_upto(turfs, replies, links, count) matches Ok((out, _)) && out.contains(item),
    ensures
        link_among(grid, turfs, |id: u64| true, links, count as int, item),
    decreases count,
{
    let (out, questions) = grid.links_upto(turfs, replies, links, count)->Ok_0;
    if count == 0 {
        assert(out.len() == 0);
    } else {
        let last = count - 1;
        let (before, earlier) = grid.links_upto(turfs, replies, links, last as nat)->Ok_0;
        if before.contains(item) {
            lemma_any_link_leads(grid, turfs, replies, links, last as nat, item);
            let i = choose|i: int|
                {
                    &&& 0 <= i < last
                    &&& grid.topology.node((#[trigger] links[i]).destination) == Some(item.0)
                    &&& may_stand(grid, turfs, item.0)
                    &&& item.1 == links[i].cost
                    &&& item.2 == LayeredAction::Link(links[i].id)
                };
            assert(0 <= i < count);
        } else {
            let i = choose|i: int| 0 <= i < out.len() && out[i] == item;
            assert(i == before.len());
            law_occupied_where_one_may_stand(grid, turfs, item.0);
            assert(grid.topology.node(links[last].destination) == Some(item.0));
        }
    }
}

/// Whatever is answered about links, every successor is reached by a move that could be made if all
/// links might be planned. In particular a mover may stand on it.
pub proof fn law_every_successor_is_a_possible_move(
    grid: LayeredGrid,
    turfs: LayeredTurfs,
    replies: Seq<bool>,
    from: LayeredNode,
    item: Successor,
)
    requires
        grid.successors_of(turfs, replies, from) matches Ok(out) && out.contains(item),
    ensures
        can_move(grid, turfs, |id: u64| true, from, item.0, item.1 as nat, item.2),
        may_stand(grid, turfs, item.0),
{
    let out = grid.successors_of(turfs, replies, from)->Ok_0;
    assert(turfs.contains_key(from) && turfs[from] is Some) by {
        if !(turfs.contains_key(from) && turfs[from] is Some) {
            assert(out.len() == 0);
        }
    }
    let source = turfs[from].unwrap();
    let links = grid.links_at(from);
    let steps = grid.steps_upto(turfs, source, from, STEP_COUNT as nat)->Ok_0;
    let verticals = grid.verticals(turfs, source, from)->Ok_0;
    let (others, questions) = grid.links_upto(turfs, replies, links, links.len())->Ok_0;
    lemma_steps_upto(grid, turfs, source, from, STEP_COUNT as nat, item);
    lemma_verticals(grid, turfs, source, from, item);
    lemma_contained_in_one_part(steps, verticals, others, item);
    assert(out == steps + verticals + others);
    if others.contains(item) {
        lemma_any_link_leads(grid, turfs, replies, links, links.len(), item);
        let i = choose|i: int|
            {
                &&& 0 <= i < links.len()
                &&& grid.topology.node((#[trigger] links[i]).destination) == Some(item.0)
                &&& may_stand(grid, turfs, item.0)
                &&& item.1 == links[i].cost
                &&& item.2 == LayeredAction::Link(links[i].id)
            };
        assert(links.contains(links[i]));
        assert(link_leads(grid, turfs, from, item.0, links[i]));
    }
}

/// Where a successor stands in the order in which moves are tried: the steps first, then up, then
/// down, then the links.
pub open spec fn turn_of(from: LayeredNode, item: Successor) -> int {
    match item.2 {
        LayeredAction::Plain => place_of(spot(from), spot(item.0)),
        LayeredAction::Vertical(dir) => if dir == 16 {
            8
        } else {
            9
        },
        LayeredAction::Link(_) => 10,
    }
}

proof fn lemma_steps_in_order(
    grid: LayeredGrid,
    turfs: LayeredTurfs,
    source: TurfInfo,
    from: LayeredNode,
    count: nat,
    i: int,
    j: int,
)
    requires
        count <= STEP_COUNT,
        grid.steps_upto(turfs, source, from, count) matches Ok(out) && 0 <= i <= j < out.len(),
    ensures
        ({
            let out = grid.steps_upto(turfs, source, from, count)->Ok_0;
            &&& turn_of(from, out[j]) < count
            &&& i < j ==> turn_of(from, out[i]) < turn_of(from, out[j])
        }),
    decreases count,
{
    if count > 0 {
        let before = grid.steps_upto(turfs, source, from, (count - 1) as nat)->Ok_0;
        let out = grid.steps_upto(turfs, source, from, count)->Ok_0;
        if j < before.len() {
            lemma_steps_in_order(grid, turfs, source, from, (count - 1) as nat, i, j);
            assert(out[i] == before[i] && out[j] == before[j]);
        } else {
            assert(out[j].0 == step_node(from, count - 1));
            assert(on_grid(from.coord(), count - 1));
            assert(turn_of(from, out[j]) == count - 1);
            if i < j {
                lemma_steps_in_order(grid, turfs, source, from, (count - 1) as nat, i, i);
                assert(out[i] == before[i]);
            }
        }
    }
}

/// Successors by steps and changes of layer come in the order in which these are tried, each once,
/// and before those by links.
pub proof fn law_successors_come_in_order(
    grid: LayeredGrid,
    turfs: LayeredTurfs,
    replies: Seq<bool>,
    from: LayeredNode,
    i: int,
    j: int,
)
    requires
        grid.successors_of(turfs, replies, from) matches Ok(out) && 0 <= i < j < out.len(),
    ensures
        ({
            let out = grid.successors_of(turfs, replies, from)->Ok_0;
            ||| turn_of(from, out[i]) < turn_of(from, out[j])
            ||| turn_of(from, out[i]) == 10 && turn_of(from, out[j]) == 10
        }),
{
    let out = grid.successors_of(turfs, replies, from)->Ok_0;
    let source = turfs[from].unwrap();
    let links = grid.links_at(from);
    let steps = grid.steps_upto(turfs, source, from, STEP_COUNT as nat)->Ok_0;
    let verticals = grid.verticals(turfs, source, from)->Ok_0;
    let (others, questions) = grid.links_upto(turfs, replies, links, links.len())->Ok_0;
    assert(out == steps + verticals + others);
    if i < steps.len() {
        assert(out[i] == steps[i]);
        lemma_steps_in_order(grid, turfs, source, from, STEP_COUNT as nat, i, i);
        if j < steps.len() {
            assert(out[j] == steps[j]);
            lemma_steps_in_order(grid, turfs, source, from, STEP_COUNT as nat, i, j);
        }
    }
    assert forall|k: int| steps.len() <= k < out.len() implies {
        if k < steps.len() + verticals.len() {
            8 <= #[trigger] turn_of(from, out[k]) <= 9
        } else {
            turn_of(from, out[k]) == 10
        }
    } by {
        if k < steps.len() + verticals.len() {
            assert(out[k] == verticals[k - steps.len()]);
        } else {
            let item = others[k - steps.len() - verticals.len()];
            assert(out[k] == item);
            assert(others.contains(item));
            lemma_any_link_leads(grid, turfs, replies, links, links.len(), item);
        }
    }
    if steps.len() <= i && j < steps.len() + verticals.len() {
        assert(out[i] == verticals[i - steps.len()]);
        assert(out[j] == verticals[j - steps.len()]);
    }
    assert(j >= steps.len() ==> turn_of(from, out[j]) >= 8);
    assert(i >= steps.len() ==> turn_of(from, out[i]) >= 8);
}

/// Where a link stands in the list from which a successor by a link was taken.
spec fn taken_from(links: Seq<NavLink>, at: int, item: Successor) -> bool {
    &&& 0 <= at < links.len()
    &&& item.1 == links[at].cost
    &&& item.2 == LayeredAction::Link(links[at].id)
}

/// Whether two successors by links were taken from a list in its order.
pub open spec fn in_list_order(links: Seq<NavLink>, a: Successor, b: Successor) -> bool {
    exists|i: int, j: int|
        {
            &&& 0 <= i < j < links.len()
            &&& a.2 == LayeredAction::Link((#[trigger] links[i]).id) && a.1 == links[i].cost
            &&& b.2 == LayeredAction::Link((#[trigger] links[j]).id) && b.1 == links[j].cost
        }
}

proof fn lemma_links_in_order(
    grid: LayeredGrid,
    turfs: LayeredTurfs,
    replies: Seq<bool>,
    links: Seq<NavLink>,
    count: nat,
    i: int,
    j: int,
) -> (places: (int, int))
    requires
        count <= links.len(),
        grid.links_upto(turfs, replies, links, count) matches Ok((out, _)) && 0 <= i < j
            < out.len(),
    ensures
        ({
            let (out, _) = grid.links_upto(turfs, replies, links, count)->Ok_0;
            &&& 0 <= places.0 < places.1 < count
            &&& taken_from(links, places.0, out[i])
            &&& taken_from(links, places.1, out[j])
        }),
    decreases count,
{
    let (out, questions) = grid.links_upto(turfs, replies, links, count)->Ok_0;
    if count == 0 {
        (0, 0)
    } else {
        let last = count - 1;
        let (before, earlier) = grid.links_upto(turfs, replies, links, last as nat)->Ok_0;
        if j < before.len() {
            assert(out[i] == before[i] && out[j] == before[j]);
            let places = lemma_links_in_order(grid, turfs, replies, links, last as nat, i, j);
            places
        } else {
            assert(out[i] == before[i]);
            assert(before.contains(before[i]));
            lemma_any_link_leads(grid, turfs, replies, links, last as nat, before[i]);
            let a = choose|a: int|
                {
                    &&& 0 <= a < last
                    &&& grid.topology.node((#[trigger] links[a]).destination) == Some(before[i].0)
                    &&& may_stand(grid, turfs, before[i].0)
                    &&& before[i].1 == links[a].cost
                    &&& before[i].2 == LayeredAction::Link(links[a].id)
                };
            (a, last)
        }
    }
}

/// Successors by links come in the order of the links that leave from the node.
pub proof fn law_links_come_in_order(
    grid: LayeredGrid,
    turfs: LayeredTurfs,
    replies: Seq<bool>,
    from: LayeredNode,
    i: int,
    j: int,
)
    requires
        grid.successors_of(turfs, replies, from) matches Ok(out) && 0 <= i < j < out.len()
            && out[i].2 is Link && out[j].2 is Link,
    ensures
        ({
            let out = grid.successors_of(turfs, replies, from)->Ok_0;
            in_list_order(grid.links_at(from), out[i], out[j])
        }),
{
    let out = grid.successors_of(turfs, replies, from)->Ok_0;
    let source = turfs[from].unwrap();
    let links = grid.links_at(from);
    let steps = grid.steps_upto(turfs, source, from, STEP_COUNT as nat)->Ok_0;
    let verticals = grid.verticals(turfs, source, from)->Ok_0;
    let (others, questions) = grid.links_upto(turfs, replies, links, links.len())->Ok_0;
    assert(out == steps + verticals + others);
    assert forall|k: int| 0 <= k < out.len() && out[k].2 is Link implies steps.len()
        + verticals.len() <= k && #[trigger] out[k] == others[k - steps.len() - verticals.len()] by {
        if k < steps.len() {
            assert(out[k] == steps[k]);
            assert(steps.contains(steps[k]));
            lemma_steps_upto(grid, turfs, source, from, STEP_COUNT as nat, steps[k]);
        } else if k < steps.len() + verticals.len() {
            assert(out[k] == verticals[k - steps.len()]);
        }
    }
    let base = steps.len() + verticals.len();
    let (a, b) = lemma_links_in_order(
        grid,
        turfs,
        replies,
        links,
        links.len(),
        i - base,
        j - base,
    );
    assert(taken_from(links, a, out[i]) && taken_from(links, b, out[j]));
    assert(out[i].2 == LayeredAction::Link(links[a].id) && out[j].2 == LayeredAction::Link(
        links[b].id,
    ));
}

/// The links that leave from a node are those registered at its world position, if its layer has a
/// z-level.
pub proof fn law_links_leave_from_the_world_position(
    grid: LayeredGrid,
    links: Seq<NavLink>,
    from: LayeredNode,
)
    requires
        indexes(grid.links_by_source@, links, links.len()),
    ensures
        ({
            let levels = grid.topology.layer_to_z@;
            let place = (from.group, from.layer);
            grid.links_at(from) == if levels.contains_key(place) {
                links.filter(|link: NavLink| link.source == (from.x, from.y, levels[place]))
            } else {
                Seq::empty()
            }
        }),
{
    let levels = grid.topology.layer_to_z@;
    let place = (from.group, from.layer);
    if levels.contains_key(place) {
        let source = (from.x, from.y, levels[place]);
        assert(indexed_at(grid.links_by_source@, source) == links_leaving(
            links,
            source,
            links.len(),
        ));
        lemma_leaving_is_filter(links, source, links.len());
        assert(links.take(links.len() as int) =~= links);
    }
}

proof fn lemma_leaving_is_filter(links: Seq<NavLink>, source: TurfCoords, count: nat)
    requires
        count <= links.len(),
    ensures
        links_leaving(links, source, count) == links.take(count as int).filter(
            |link: NavLink| link.source == source,
        ),
    decreases count,
{
    reveal(Seq::filter);
    if count > 0 {
        lemma_leaving_is_filter(links, source, (count - 1) as nat);
        assert(links.take(count as int).drop_last() =~= links.take(count - 1));
    }
}

/// Whether a map knows every node.
pub open spec fn is_whole(turfs: LayeredTurfs) -> bool {
    forall|n: LayeredNode| #[trigger] turfs.contains_key(n)
}

/// On a whole map it is settled what can be reached from any node.
pub proof fn law_whole_map_settles_successors(
    grid: LayeredGrid,
    turfs: LayeredTurfs,
    may_plan: spec_fn(u64) -> bool,
    from: LayeredNode,
)
    requires
        is_whole(turfs),
    ensures
        grid.steady_successors(turfs, may_plan, from) is Ok,
{
    assert(turfs.contains_key(from));
    if let Some(source) = turfs[from] {
        let links = grid.links_at(from);
        lemma_steps_settled(grid, turfs, source, from, STEP_COUNT as nat);
        lemma_links_settled(grid, turfs, may_plan, links, links.len());
        let above = LayeredNode { layer: next_layer(from.layer, UP) as i16, ..from };
        let below = LayeredNode { layer: next_layer(from.layer, DOWN) as i16, ..from };
        assert(turfs.contains_key(above) && turfs.contains_key(below));
        law_occupied_where_one_may_stand(grid, turfs, above);
        law_occupied_where_one_may_stand(grid, turfs, below);
    }
}

proof fn lemma_steps_settled(
    grid: LayeredGrid,
    turfs: LayeredTurfs,
    source: TurfInfo,
    from: LayeredNode,
    count: nat,
)
    requires
        count <= STEP_COUNT,
        is_whole(turfs),
    ensures
        grid.steps_upto(turfs, source, from, count) is Ok,
    decreases count,
{
    if count > 0 {
        lemma_steps_settled(grid, turfs, source, from, (count - 1) as nat);
        let to = step_node(from, count - 1);
        assert(turfs.contains_key(to) && turfs.contains_key(from));
        law_occupied_where_one_may_stand(grid, turfs, to);
        law_routes_are_those_around_the_corners(grid, turfs, from, to);
        assert forall|n: LayeredNode| turfs.contains_key(n) by {}
    }
}

proof fn lemma_links_settled(
    grid: LayeredGrid,
    turfs: LayeredTurfs,
    may_plan: spec_fn(u64) -> bool,
    links: Seq<NavLink>,
    count: nat,
)
    requires
        count <= links.len(),
        is_whole(turfs),
    ensures
        grid.links_upto(
            turfs,
            grid.steady_replies(turfs, may_plan, links, links.len()),
            links,
            count,
        ) matches Ok((_, questions)) && questions == asked(grid, turfs, links, count),
    decreases count,
{
    if count > 0 {
        lemma_links_settled(grid, turfs, may_plan, links, (count - 1) as nat);
        if let Some(to) = grid.topology.node(links[count - 1].destination) {
            assert(turfs.contains_key(to));
            law_occupied_where_one_may_stand(grid, turfs, to);
            lemma_steady_replies_grow(grid, turfs, may_plan, links, count, links.len());
        }
    }
}

/// Without an answer about a turf or a link nothing is made up: what is asked for is not known, and
/// a link that is asked about leads from the node to where a mover may stand.
pub proof fn law_only_what_matters_is_asked_for(
    grid: LayeredGrid,
    turfs: LayeredTurfs,
    replies: Seq<bool>,
    from: LayeredNode,
)
    ensures
        match grid.successors_of(turfs, replies, from) {
            Ok(_) => true,
            Err(Request::Turf(node)) => !turfs.contains_key(node),
            Err(Request::Link(id)) => exists|to: LayeredNode, link: NavLink| #[trigger]
                link_leads(grid, turfs, from, to, link) && link.id == id,
        },
{
    lemma_layered_successors_bounds(grid, turfs, replies, from);
    if let Err(Request::Link(id)) = grid.successors_of(turfs, replies, from) {
        let source = turfs[from].unwrap();
        let links = grid.links_at(from);
        lemma_steps_ask_for_turfs(grid, turfs, source, from, STEP_COUNT as nat);
        let above = LayeredNode { layer: next_layer(from.layer, UP) as i16, ..from };
        let below = LayeredNode { layer: next_layer(from.layer, DOWN) as i16, ..from };
        law_occupied_where_one_may_stand(grid, turfs, above);
        law_occupied_where_one_may_stand(grid, turfs, below);
        let i = lemma_link_asked_about(grid, turfs, replies, links, links.len(), id);
        let to = grid.topology.node(links[i].destination).unwrap();
        assert(links.contains(links[i]));
        assert(link_leads(grid, turfs, from, to, links[i]));
    }
}

proof fn lemma_steps_ask_for_turfs(
    grid: LayeredGrid,
    turfs: LayeredTurfs,
    source: TurfInfo,
    from: LayeredNode,
    count: nat,
)
    ensures
        grid.steps_upto(turfs, source, from, count) matches Err(missing) ==> missing is Turf,
    decreases count,
{
    if count > 0 {
        lemma_steps_ask_for_turfs(grid, turfs, source, from, (count - 1) as nat);
    }
}

proof fn lemma_link_asked_about(
    grid: LayeredGrid,
    turfs: LayeredTurfs,
    replies: Seq<bool>,
    links: Seq<NavLink>,
    count: nat,
    id: u64,
) -> (at: int)
    requires
        count <= links.len(),
        grid.links_upto(turfs, replies, links, count) == Err::<(Seq<Successor>, nat), Request>(
            Request::Link(id),
        ),
    ensures
        0 <= at < count,
        links[at].id == id,
        grid.topology.node(links[at].destination) matches Some(to) && may_stand(grid, turfs, to),
    decreases count,
{
    if count == 0 {
        0
    } else {
        match grid.links_upto(turfs, replies, links, (count - 1) as nat) {
            Err(_) => {
                let at = lemma_link_asked_about(
                    grid,
                    turfs,
                    replies,
                    links,
                    (count - 1) as nat,
                    id,
                );
                at
            },
            Ok(_) => {
                let to = grid.topology.node(links[count - 1].destination).unwrap();
                law_occupied_where_one_may_stand(grid, turfs, to);
                count - 1
            },
        }
    }
}

/// Whether a mover can get from the start of a search to its target by the given moves: it may
/// stand on the start, each move can be made, and the end is on the goal's own level within the
/// target distance.
pub open spec fn is_way(
    job: MultiSearchJob,
    turfs: LayeredTurfs,
    may_plan: spec_fn(u64) -> bool,
    nodes: Seq<LayeredNode>,
    actions: Seq<LayeredAction>,
    costs: Seq<nat>,
) -> bool {
    &&& nodes.len() == costs.len() + 1
    &&& actions.len() == nodes.len()
    &&& nodes[0] == job.grid.start
    &&& may_stand(job.grid, turfs, nodes[0])
    &&& forall|i: int|
        0 <= i < costs.len() ==> can_move(
            job.grid,
            turfs,
            may_plan,
            nodes[i],
            nodes[i + 1],
            #[trigger] costs[i],
            actions[i + 1],
        )
    &&& nodes.last().group == job.goal.group
    &&& nodes.last().layer == job.goal.layer
    &&& within(spot(nodes.last()), spot(job.goal), job.min_target_distance as int)
}

/// A move that can be made on a whole map is listed.
pub proof fn lemma_move_is_listed(
    grid: LayeredGrid,
    turfs: LayeredTurfs,
    may_plan: spec_fn(u64) -> bool,
    from: LayeredNode,
    to: LayeredNode,
    cost: nat,
    action: LayeredAction,
)
    requires
        is_whole(turfs),
        can_move(grid, turfs, may_plan, from, to, cost, action),
    ensures
        (steady_edges(grid, turfs, may_plan))(from, to, cost),
{
    assert(cost <= u32::MAX) by {
        if let LayeredAction::Link(id) = action {
            let link = choose|link: NavLink| #[trigger]
                link_leads(grid, turfs, from, to, link) && link.id == id && link.cost == cost;
        }
    }
    let item = (to, cost as u32, action);
    law_whole_map_settles_successors(grid, turfs, may_plan, from);
    law_successors_are_the_possible_moves(grid, turfs, may_plan, from, item);
    let out = grid.steady_successors(turfs, may_plan, from)->Ok_0;
    let i = choose|i: int| 0 <= i < out.len() && out[i] == item;
    assert(out[i].0 == to && out[i].1 == cost);
    assert(on_list(out, to, cost));
}

/// On a whole map a way is a walk through the graph of what is listed.
pub proof fn lemma_way_is_a_walk(
    job: MultiSearchJob,
    turfs: LayeredTurfs,
    may_plan: spec_fn(u64) -> bool,
    nodes: Seq<LayeredNode>,
    actions: Seq<LayeredAction>,
    costs: Seq<nat>,
)
    requires
        is_whole(turfs),
        is_way(job, turfs, may_plan, nodes, actions, costs),
    ensures
        is_walk(steady_edges(job.grid, turfs, may_plan), nodes, costs),
{
    let edge = steady_edges(job.grid, turfs, may_plan);
    assert forall|i: int| 0 <= i < costs.len() implies edge(
        nodes[i],
        nodes[i + 1],
        #[trigger] costs[i],
    ) by {
        lemma_move_is_listed(
            job.grid,
            turfs,
            may_plan,
            nodes[i],
            nodes[i + 1],
            costs[i],
            actions[i + 1],
        );
    }
}

/// Rules that are the same ask the same questions and list the same moves.
pub proof fn lemma_same_steady_successors(
    a: LayeredGrid,
    b: LayeredGrid,
    turfs: LayeredTurfs,
    may_plan: spec_fn(u64) -> bool,
    from: LayeredNode,
)
    requires
        a.same_rules(b),
    ensures
        a.links_at(from) == b.links_at(from),
        a.steady_replies(turfs, may_plan, a.links_at(from), a.links_at(from).len())
            == b.steady_replies(turfs, may_plan, b.links_at(from), b.links_at(from).len()),
        a.steady_successors(turfs, may_plan, from) == b.steady_successors(turfs, may_plan, from),
{
    let links = a.links_at(from);
    lemma_same_steady_replies(a, b, turfs, may_plan, links, links.len());
    lemma_equivalent_layered_successors(
        a,
        b,
        turfs,
        a.steady_replies(turfs, may_plan, links, links.len()),
        from,
    );
}

proof fn lemma_same_steady_replies(
    a: LayeredGrid,
    b: LayeredGrid,
    turfs: LayeredTurfs,
    may_plan: spec_fn(u64) -> bool,
    links: Seq<NavLink>,
    count: nat,
)
    requires
        a.same_rules(b),
    ensures
        a.steady_replies(turfs, may_plan, links, count) == b.steady_replies(
            turfs,
            may_plan,
            links,
            count,
        ),
    decreases count,
{
    assert forall|n: LayeredNode| a.occupiable(turfs, n) == b.occupiable(turfs, n) by {}
    if count > 0 {
        lemma_same_steady_replies(a, b, turfs, may_plan, links, (count - 1) as nat);
    }
}

/// Answers that begin like the steady ones and settle what is listed list what the steady ones do.
pub proof fn lemma_prefix_lists_the_same(
    grid: LayeredGrid,
    known: LayeredTurfs,
    turfs: LayeredTurfs,
    may_plan: spec_fn(u64) -> bool,
    replies: Seq<bool>,
    from: LayeredNode,
)
    requires
        known.submap_of(turfs),
        replies.is_prefix_of(
            grid.steady_replies(
                turfs,
                may_plan,
                grid.links_at(from),
                grid.links_at(from).len(),
            ),
        ),
        grid.successors_of(known, replies, from) is Ok,
    ensures
        grid.steady_successors(turfs, may_plan, from) == grid.successors_of(known, replies, from),
{
    law_more_turfs_keep_layered_successors(grid, known, turfs, replies, from);
    let links = grid.links_at(from);
    let steady = grid.steady_replies(turfs, may_plan, links, links.len());
    if let Ok(Some(source)) = grid.seen(turfs, from) {
        lemma_prefix_upto(grid, turfs, replies, steady, links, links.len());
    }
}

proof fn lemma_prefix_upto(
    grid: LayeredGrid,
    turfs: LayeredTurfs,
    replies: Seq<bool>,
    steady: Seq<bool>,
    links: Seq<NavLink>,
    count: nat,
)
    requires
        replies.is_prefix_of(steady),
        grid.links_upto(turfs, replies, links, count) is Ok,
    ensures
        grid.links_upto(turfs, steady, links, count) == grid.links_upto(
            turfs,
            replies,
            links,
            count,
        ),
    decreases count,
{
    if count > 0 {
        lemma_prefix_upto(grid, turfs, replies, steady, links, (count - 1) as nat);
        let (before, earlier) = grid.links_upto(turfs, replies, links, (count - 1) as nat)->Ok_0;
        if earlier < replies.len() {
            assert(steady[earlier as int] == replies[earlier as int]);
        }
    }
}

/// The answer to the link that is asked about next goes on like the steady ones.
pub proof fn lemma_next_answer(
    grid: LayeredGrid,
    known: LayeredTurfs,
    turfs: LayeredTurfs,
    may_plan: spec_fn(u64) -> bool,
    replies: Seq<bool>,
    from: LayeredNode,
    id: u64,
)
    requires
        known.submap_of(turfs),
        replies.is_prefix_of(
            grid.steady_replies(
                turfs,
                may_plan,
                grid.links_at(from),
                grid.links_at(from).len(),
            ),
        ),
        grid.successors_of(known, replies, from) == Err::<Seq<Successor>, Request>(
            Request::Link(id),
        ),
    ensures
        replies.push(may_plan(id)).is_prefix_of(
            grid.steady_replies(
                turfs,
                may_plan,
                grid.links_at(from),
                grid.links_at(from).len(),
            ),
        ),
{
    let links = grid.links_at(from);
    let source = known[from].unwrap();
    lemma_steps_ask_for_turfs(grid, known, source, from, STEP_COUNT as nat);
    let above = LayeredNode { layer: next_layer(from.layer, UP) as i16, ..from };
    let below = LayeredNode { layer: next_layer(from.layer, DOWN) as i16, ..from };
    law_occupied_where_one_may_stand(grid, known, above);
    law_occupied_where_one_may_stand(grid, known, below);
    lemma_next_answer_upto(grid, known, turfs, may_plan, replies, links, links.len(), id);
}

proof fn lemma_next_answer_upto(
    grid: LayeredGrid,
    known: LayeredTurfs,
    turfs: LayeredTurfs,
    may_plan: spec_fn(u64) -> bool,
    replies: Seq<bool>,
    links: Seq<NavLink>,
    count: nat,
    id: u64,
)
    requires
        known.submap_of(turfs),
        count <= links.len(),
        replies.is_prefix_of(grid.steady_replies(turfs, may_plan, links, links.len())),
    ensures
        match grid.links_upto(known, replies, links, count) {
            Ok((_, questions)) => {
                &&& questions == grid.steady_replies(turfs, may_plan, links, count).len()
                &&& questions <= replies.len()
            },
            Err(Request::Link(asked_id)) => replies.push(may_plan(asked_id)).is_prefix_of(
                grid.steady_replies(turfs, may_plan, links, links.len()),
            ),
            Err(Request::Turf(_)) => true,
        },
    decreases count,
{
    if count > 0 {
        lemma_next_answer_upto(
            grid,
            known,
            turfs,
            may_plan,
            replies,
            links,
            (count - 1) as nat,
            id,
        );
        let link = links[count - 1];
        if let Ok((before, earlier)) = grid.links_upto(known, replies, links, (count - 1) as nat) {
            if let Some(to) = grid.topology.node(link.destination) {
                assert(known.dom().contains(to) ==> turfs.dom().contains(to) && known[to]
                    == turfs[to]);
                lemma_steady_replies_grow(grid, turfs, may_plan, links, count, links.len());
                let upto = grid.steady_replies(turfs, may_plan, links, count);
                let steady = grid.steady_replies(turfs, may_plan, links, links.len());
                if let Ok(Some(_)) = grid.occupiable(known, to) {
                    assert(upto[earlier as int] == may_plan(link.id));
                    assert(steady[earlier as int] == upto[earlier as int]);
                    if earlier >= replies.len() {
                        assert(replies.push(may_plan(link.id)) =~= steady.take(earlier as int + 1));
                    }
                }
            }
        }
    }
}

/// Whether a move of a path is a plain step along both axes of a level.
pub open spec fn turns(from: LayeredNode, to: LayeredNode, action: LayeredAction) -> bool {
    &&& from.group == to.group && from.layer == to.layer
    &&& from.x != to.x && from.y != to.y
    &&& action == LayeredAction::Plain
}

/// The corner by which a move of a path is handed out, if any: where every diagonal is replaced, the
/// one north or south if one can go there first and else the one east or west; where only clunky ones
/// are, the one east or west if one can only go there first.
pub open spec fn corner_of(
    grid: LayeredGrid,
    turfs: LayeredTurfs,
    handling: DiagonalHandling,
    from: LayeredNode,
    to: LayeredNode,
    action: LayeredAction,
) -> Option<LayeredNode> {
    let along_y = goes_along_y_first(grid, turfs, from, to);
    let along_x = goes_along_x_first(grid, turfs, from, to);
    if !turns(from, to, action) {
        None
    } else if handling == DiagonalHandling::RemoveAll && along_y {
        Some(LayeredNode { x: from.x, y: to.y, ..from })
    } else if handling != DiagonalHandling::DoNothing && !along_y && along_x {
        Some(LayeredNode { x: to.x, y: from.y, ..from })
    } else {
        None
    }
}

/// Whether a move of a path cannot be handed out: it is diagonal, has to be replaced, and one can go
/// neither way.
pub open spec fn cannot_turn(
    grid: LayeredGrid,
    turfs: LayeredTurfs,
    handling: DiagonalHandling,
    from: LayeredNode,
    to: LayeredNode,
    action: LayeredAction,
) -> bool {
    &&& turns(from, to, action)
    &&& handling == DiagonalHandling::RemoveAll
    &&& !goes_along_y_first(grid, turfs, from, to)
    &&& !goes_along_x_first(grid, turfs, from, to)
}

/// The shape in which the first `steps` moves of a path are handed out, with the action that leads to
/// each node. No action leads to the first node, nor to a corner.
pub open spec fn shape_of(
    grid: LayeredGrid,
    turfs: LayeredTurfs,
    handling: DiagonalHandling,
    nodes: Seq<LayeredNode>,
    actions: Seq<LayeredAction>,
    steps: nat,
) -> (Seq<LayeredNode>, Seq<LayeredAction>)
    decreases steps,
{
    if steps == 0 {
        (seq![nodes[0]], seq![LayeredAction::Plain])
    } else {
        let to = nodes[steps as int];
        let action = actions[steps as int];
        let (path, taken) = shape_of(grid, turfs, handling, nodes, actions, (steps - 1) as nat);
        match corner_of(grid, turfs, handling, nodes[steps - 1], to, action) {
            Some(corner) => (
                path + seq![corner, to],
                taken + seq![LayeredAction::Plain, action],
            ),
            None => (path + seq![to], taken + seq![action]),
        }
    }
}

proof fn lemma_expansion_is_the_shape(
    grid: LayeredGrid,
    handling: DiagonalHandling,
    nodes: Seq<LayeredNode>,
    actions: Seq<LayeredAction>,
    routes: Seq<DiagonalRoutes>,
    steps: nat,
)
    requires
        steps <= routes.len() < nodes.len(),
        layered_rechecked(grid, nodes, actions, routes),
    ensures
        match layered_expansion(nodes, actions, handling, routes, steps) {
            Some(expansion) => expansion == shape_of(
                grid,
                grid.cache@,
                handling,
                nodes,
                actions,
                steps,
            ),
            None => exists|i: int|
                0 <= i < steps && cannot_turn(
                    grid,
                    grid.cache@,
                    handling,
                    #[trigger] nodes[i],
                    nodes[i + 1],
                    actions[i + 1],
                ),
        },
    decreases steps,
{
    if steps > 0 {
        let last = steps - 1;
        lemma_expansion_is_the_shape(grid, handling, nodes, actions, routes, last as nat);
        law_layered_expansion_adds_corner_and_end(nodes, actions, handling, routes, last as nat);
        law_only_a_layered_diagonal_without_a_route_is_impossible(
            nodes,
            actions,
            handling,
            routes,
            last as nat,
        );
        law_only_a_layered_diagonal_without_a_route_is_impossible(
            nodes,
            actions,
            handling,
            routes,
            steps,
        );
        let from = nodes[last];
        let to = nodes[last + 1];
        if turns(from, to, actions[last + 1]) {
            assert(grid.routes(grid.cache@, nodes[last], nodes[last + 1]) == Ok::<
                DiagonalRoutes,
                Request,
            >(routes[last]));
            law_routes_are_those_around_the_corners(grid, grid.cache@, from, to);
        }
        if layered_expansion(nodes, actions, handling, routes, steps) is None {
            if layered_expansion(nodes, actions, handling, routes, last as nat) is None {
                let i = choose|i: int|
                    0 <= i < last && cannot_turn(
                        grid,
                        grid.cache@,
                        handling,
                        #[trigger] nodes[i],
                        nodes[i + 1],
                        actions[i + 1],
                    );
                assert(0 <= i < steps);
            } else {
                let i = choose|i: int|
                    0 <= i < steps && #[trigger] has_no_route(nodes, actions, routes, i);
                assert(!has_no_route(nodes, actions, routes, i) || i == last);
                assert(cannot_turn(
                    grid,
                    grid.cache@,
                    handling,
                    nodes[last],
                    nodes[last + 1],
                    actions[last + 1],
                ));
            }
        }
    }
}

/// Whether turfs are the world positions of nodes: their horizontal positions on the z-levels of
/// their layers.
pub open spec fn are_positions(
    grid: LayeredGrid,
    nodes: Seq<LayeredNode>,
    turfs: Seq<TurfCoords>,
) -> bool {
    &&& turfs.len() == nodes.len()
    &&& forall|i: int|
        0 <= i < turfs.len() ==> {
            let place = (nodes[i].group, nodes[i].layer);
            &&& (#[trigger] turfs[i]).0 == nodes[i].x
            &&& turfs[i].1 == nodes[i].y
            &&& grid.topology.layer_to_z@.contains_key(place)
            &&& turfs[i].2 == grid.topology.layer_to_z@[place]
        }
}

/// A path is handed out with all its moves in the requested shape, at its world positions and with
/// the action that leads to each. It is given up only where some diagonal has to be replaced and one
/// can go neither way around it, or where a layer has no z-level; a turf that is asked for is not
/// known.
pub proof fn law_path_is_handed_out_in_shape(
    job: MultiSearchJob,
    goal: LayeredNode,
    nodes: Seq<LayeredNode>,
    actions: Seq<LayeredAction>,
    path: Result<Option<(Seq<TurfCoords>, Seq<LayeredAction>)>, Request>,
)
    requires
        job.rechecks_to(goal, path),
        retraces(job.previous@, nodes, actions, goal),
    ensures
        ({
            let (whole, taken) = shape_of(
                job.grid,
                job.grid.cache@,
                job.diagonal_handling,
                nodes,
                actions,
                (nodes.len() - 1) as nat,
            );
            match path {
                Ok(Some((turfs, handed))) => are_positions(job.grid, whole, turfs) && handed
                    == taken,
                Ok(None) => {
                    ||| exists|i: int|
                        0 <= i < nodes.len() - 1 && cannot_turn(
                            job.grid,
                            job.grid.cache@,
                            job.diagonal_handling,
                            #[trigger] nodes[i],
                            nodes[i + 1],
                            actions[i + 1],
                        )
                    ||| exists|i: int|
                        0 <= i < whole.len() && !job.grid.topology.layer_to_z@.contains_key(
                            ((#[trigger] whole[i]).group, whole[i].layer),
                        )
                },
                Err(missing) => missing matches Request::Turf(node)
                    && !job.grid.cache@.contains_key(node),
            }
        }),
{
    let grid = job.grid;
    let handling = job.diagonal_handling;
    let (others, moves) = choose|others: Seq<LayeredNode>, moves: Seq<LayeredAction>|
        {
            &&& #[trigger] retraces(job.previous@, others, moves, goal)
            &&& job.recheck_is(others, moves, path)
        };
    lemma_one_way_back(job.previous@, (nodes, actions), (others, moves), goal);
    match path {
        Ok(Some((turfs, handed))) => {
            let whole = choose|whole: Seq<LayeredNode>|
                {
                    &&& #[trigger] job.comes_out(nodes, actions, whole, handed)
                    &&& turfs.len() == whole.len()
                    &&& forall|i: int|
                        0 <= i < whole.len() ==> job.placed(whole[i], #[trigger] turfs[i])
                };
            let routes = choose|routes: Seq<DiagonalRoutes>| #[trigger]
                job.handled(nodes, actions, routes, Some((whole, handed))) && routes.len() + 1
                    == nodes.len();
            lemma_expansion_is_the_shape(grid, handling, nodes, actions, routes, routes.len());
        },
        Ok(None) => {
            if job.is_stuck(nodes, actions) {
                let routes = choose|routes: Seq<DiagonalRoutes>| #[trigger]
                    job.handled(nodes, actions, routes, None);
                lemma_expansion_is_the_shape(grid, handling, nodes, actions, routes, routes.len());
                let i = choose|i: int|
                    0 <= i < routes.len() && cannot_turn(
                        grid,
                        grid.cache@,
                        handling,
                        #[trigger] nodes[i],
                        nodes[i + 1],
                        actions[i + 1],
                    );
                assert(0 <= i < nodes.len() - 1);
            } else {
                let (whole, handed) = choose|
                    whole: Seq<LayeredNode>,
                    handed: Seq<LayeredAction>,
                | #[trigger]
                    job.comes_out(nodes, actions, whole, handed) && exists|i: int|
                        0 <= i < whole.len() && grid.topology.z_of(#[trigger] whole[i]) is None;
                let routes = choose|routes: Seq<DiagonalRoutes>| #[trigger]
                    job.handled(nodes, actions, routes, Some((whole, handed))) && routes.len() + 1
                        == nodes.len();
                lemma_expansion_is_the_shape(grid, handling, nodes, actions, routes, routes.len());
                let i = choose|i: int|
                    0 <= i < whole.len() && grid.topology.z_of(#[trigger] whole[i]) is None;
                assert(!grid.topology.layer_to_z@.contains_key((whole[i].group, whole[i].layer)));
            }
        },
        Err(missing) => {
            let (routes, part) = choose|
                routes: Seq<DiagonalRoutes>,
                part: (Seq<LayeredNode>, Seq<LayeredAction>),
            |
                {
                    let k = routes.len() as int;
                    &&& #[trigger] job.handled(nodes, actions, routes, Some(part))
                    &&& k < nodes.len() - 1
                    &&& turning(nodes[k], nodes[k + 1], actions[k + 1])
                    &&& grid.routes(grid.cache@, nodes[k], nodes[k + 1]) == Err::<
                        DiagonalRoutes,
                        Request,
                    >(missing)
                };
            let k = routes.len() as int;
            law_routes_are_those_around_the_corners(grid, grid.cache@, nodes[k], nodes[k + 1]);
        },
    }
}

/// A path whose moves can be made has the same property in the shape in which it is handed out.
pub proof fn law_shape_can_be_walked(
    grid: LayeredGrid,
    turfs: LayeredTurfs,
    may_plan: spec_fn(u64) -> bool,
    handling: DiagonalHandling,
    nodes: Seq<LayeredNode>,
    actions: Seq<LayeredAction>,
    costs: Seq<nat>,
    steps: nat,
)
    requires
        nodes.len() == costs.len() + 1,
        actions.len() == nodes.len(),
        steps < nodes.len(),
        forall|i: int|
            0 <= i < costs.len() ==> can_move(
                grid,
                turfs,
                may_plan,
                nodes[i],
                nodes[i + 1],
                #[trigger] costs[i],
                actions[i + 1],
            ),
    ensures
        ({
            let (whole, taken) = shape_of(grid, turfs, handling, nodes, actions, steps);
            &&& whole.len() > steps
            &&& taken.len() == whole.len()
            &&& whole[0] == nodes[0]
            &&& whole.last() == nodes[steps as int]
            &&& forall|i: int, j: int|
                #![trigger whole[i], whole[j]]
                0 <= i < j <= i + 1 && j < whole.len() ==> some_move(
                    grid,
                    turfs,
                    may_plan,
                    whole[i],
                    whole[j],
                    taken[j],
                )
        }),
    decreases steps,
{
    if steps > 0 {
        let last = steps - 1;
        law_shape_can_be_walked(
            grid,
            turfs,
            may_plan,
            handling,
            nodes,
            actions,
            costs,
            last as nat,
        );
        let (before, earlier) = shape_of(grid, turfs, handling, nodes, actions, last as nat);
        let (whole, taken) = shape_of(grid, turfs, handling, nodes, actions, steps);
        let from = nodes[last];
        let to = nodes[last + 1];
        let action = actions[last + 1];
        assert(can_move(
            grid,
            turfs,
            may_plan,
            nodes[last],
            nodes[last + 1],
            costs[last],
            actions[last + 1],
        ));
        assert(some_move(grid, turfs, may_plan, from, to, action));
        if let Some(corner) = corner_of(grid, turfs, handling, from, to, action) {
            assert(can_move(grid, turfs, may_plan, from, corner, 10, LayeredAction::Plain));
            assert(can_move(grid, turfs, may_plan, corner, to, 10, LayeredAction::Plain));
            assert(some_move(grid, turfs, may_plan, from, corner, LayeredAction::Plain));
            assert(some_move(grid, turfs, may_plan, corner, to, LayeredAction::Plain));
        }
        assert forall|i: int, j: int|
            #![trigger whole[i], whole[j]]
            0 <= i < j <= i + 1 && j < whole.len() implies some_move(
            grid,
            turfs,
            may_plan,
            whole[i],
            whole[j],
            taken[j],
        ) by {
            if j < before.len() {
                assert(whole[i] == before[i] && whole[j] == before[j] && taken[j] == earlier[j]);
            } else if i < before.len() {
                assert(whole[i] == before.last());
            }
        }
    }
}

/// Whether a mover can get from one node to another by an action, at some cost.
pub open spec fn some_move(
    grid: LayeredGrid,
    turfs: LayeredTurfs,
    may_plan: spec_fn(u64) -> bool,
    from: LayeredNode,
    to: LayeredNode,
    action: LayeredAction,
) -> bool {
    exists|cost: nat| #[trigger] can_move(grid, turfs, may_plan, from, to, cost, action)
}

} // verus!
