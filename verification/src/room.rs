//! Where the numbers of a search stay within their machine range: on every map of ordinary size.

use crate::geometry::{Coord, LayeredNode};
use crate::grid::lemma_at_most_eight;
use crate::layered_grid::{
    is_link_among, is_link_of, law_successors_are_moves, lemma_layered_successors_bounds,
};
use crate::multi_search::{offer_fits as layered_offer_fits, MultiSearchJob};
use crate::portal::PortalHeuristic;
use crate::request::PathRequest;
use crate::search::{offer_fits, SearchJob};
use crate::topology::{NavLink, Topology};
use crate::world::law_successors_are_the_possible_steps;
use vstd::prelude::*;

verus! {

/// Whether a position lies on a map of ordinary size.
pub open spec fn ordinary(at: Coord) -> bool {
    -16000 <= at.0 <= 16000 && -16000 <= at.1 <= 16000
}

/// Whether a node lies on a map of ordinary size.
pub open spec fn ordinary_node(at: LayeredNode) -> bool {
    ordinary((at.x, at.y)) && -16000 <= at.layer <= 16000
}

/// Whether both ends of a link lie on a map of ordinary size.
pub open spec fn ordinary_link(link: NavLink) -> bool {
    ordinary((link.source.0, link.source.1)) && ordinary((link.destination.0, link.destination.1))
}

/// On a map of ordinary size a request on one level can always be looked at.
pub proof fn law_ordinary_requests_have_room(request: PathRequest)
    requires
        request.start matches Some(start) ==> ordinary((start.0, start.1)),
        request.end matches Some(end) ==> ordinary((end.0, end.1)),
    ensures
        request.has_room(),
{
}

/// On a map of ordinary size the next move of a search can always be made.
pub proof fn law_ordinary_searches_have_room(job: SearchJob)
    requires
        ordinary(job.goal),
        ordinary(job.grid.start),
        job.min_target_distance >= 0,
        job.sequence <= 1_000_000_000_000,
        job.current matches Some(e) ==> ordinary(e.coord) && e.cost <= 4_000_000_000,
    ensures
        job.has_room(),
{
    let known = job.grid.cache@;
    if let Some(e) = job.current {
        lemma_at_most_eight(job.grid, known, e.coord);
        if let Ok(out) = job.grid.successors_of(known, e.coord) {
            assert forall|i: int| 0 <= i < out.len() implies offer_fits(
                job.book(),
                job.goal,
                job.radius(),
                e,
                #[trigger] out[i],
            ) by {
                assert(job.grid.walks_to(known, e.coord, out[i].0, out[i].1 as nat));
                law_successors_are_the_possible_steps(
                    job.grid,
                    known,
                    e.coord,
                    out[i].0,
                    out[i].1 as nat,
                );
            }
        }
    }
}

/// Whether the nodes that a heuristic measures to lie on a map of ordinary size.
pub open spec fn ordinary_heuristic(heuristic: PortalHeuristic) -> bool {
    &&& ordinary_node(heuristic.goal)
    &&& heuristic.min_target_distance >= 0
    &&& forall|i: int|
        0 <= i < heuristic.source_distances@.len() ==> ordinary_node(
            (#[trigger] heuristic.source_distances@[i]).0,
        )
}

/// On maps of ordinary size the next move of a search across levels can always be made.
pub proof fn law_ordinary_layered_searches_have_room(job: MultiSearchJob)
    requires
        ordinary_heuristic(job.heuristic),
        ordinary_node(job.grid.start),
        job.sequence <= 1_000_000_000_000,
        job.current matches Some(e) ==> {
            &&& ordinary_node(e.node)
            &&& job.grid.links_at(e.node).len() <= 1_000_000_000_000
            &&& forall|i: int|
                0 <= i < job.grid.links_at(e.node).len() ==> ordinary_link(
                    #[trigger] job.grid.links_at(e.node)[i],
                )
        },
    ensures
        job.has_room(),
{
    let grid = job.grid;
    let known = grid.cache@;
    let replies = job.replies@;
    if let Some(e) = job.current {
        let links = grid.links_at(e.node);
        assert forall|i: int| 0 <= i < links.len() implies grid.comparable_end(
            #[trigger] grid.links_at(e.node)[i],
        ) by {
            assert(ordinary_link(links[i]));
        }
        lemma_layered_successors_bounds(grid, known, replies, e.node);
        if let Ok(out) = grid.successors_of(known, replies, e.node) {
            assert forall|i: int| 0 <= i < out.len() implies layered_offer_fits(
                job.book(),
                job.heuristic,
                grid.max_cost,
                e,
                #[trigger] out[i],
            ) by {
                law_successors_are_moves(grid, known, replies, e.node, i);
                if is_link_among(grid, links, out[i]) {
                    let j = choose|j: int|
                        0 <= j < links.len() && is_link_of(grid, #[trigger] links[j], out[i]);
                    assert(ordinary_link(links[j]));
                }
            }
        }
    }
}

/// On maps of ordinary size a request over several levels can always be looked at.
pub proof fn law_ordinary_layered_requests_have_room(
    request: PathRequest,
    topology: Topology,
    links: Seq<NavLink>,
)
    requires
        request.end matches Some(end) ==> ordinary((end.0, end.1)),
        links.len() <= 1_000_000_000,
        forall|i: int| 0 <= i < links.len() ==> ordinary_link(#[trigger] links[i]),
    ensures
        request.has_multi_room(topology, links),
{
    if request.ends(topology) is Some {
        let model = request.model(topology, links);
        assert forall|p: LayeredNode| #[trigger] model.portal(p) implies ordinary((p.x, p.y)) by {
            if p != model.goal {
                let i = choose|i: int|
                    0 <= i < model.links.len() && model.ends(#[trigger] model.links[i], p);
                assert(ordinary_link(links[i]));
            }
        }
        assert(model.measurable());
    }
}

} // verus!
