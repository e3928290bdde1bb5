//! How z-levels hang together: groups, layers and the links between turfs.

use crate::geometry::{LayeredNode, TurfCoords};
use crate::packed_map::PackedMap;
use std::collections::HashMap;
use vstd::prelude::*;
use vstd::std_specs::iter::IteratorSpec;

verus! {

broadcast use vstd::std_specs::hash::group_hash_axioms;

/// Where a z-level stands: its group and its layer within the group.
#[derive(Clone, Copy, Debug, PartialEq, Eq, Structural)]
pub struct LayerLocation {
    /// Connected z-level group identifier.
    pub group: i32,
    /// Zero-based layer within the group.
    pub layer: i16,
}

/// Multi-level topology snapshot.
pub struct Topology {
    /// Generation used to invalidate active searches.
    pub generation: u64,
    /// Mapping from z-level to group and layer.
    pub z_to_layer: PackedMap<i16, LayerLocation>,
    /// Reverse mapping from group and layer to z-level.
    pub layer_to_z: PackedMap<(i32, i16), i16>,
}

/// One published record: a group, a layer and the z-level that stands there.
pub type LayerRecord = (i32, i16, i16);

/// The z-level mapping after the first `count` records; a later record wins.
pub open spec fn layers_by_z(records: Seq<LayerRecord>, count: nat) -> Map<i16, LayerLocation>
    decreases count,
{
    if count == 0 {
        Map::empty()
    } else {
        let (group, layer, z) = records[count - 1];
        layers_by_z(records, (count - 1) as nat).insert(z, LayerLocation { group, layer })
    }
}

/// The reverse mapping after the first `count` records; a later record wins.
pub open spec fn z_by_layer(records: Seq<LayerRecord>, count: nat) -> Map<(i32, i16), i16>
    decreases count,
{
    if count == 0 {
        Map::empty()
    } else {
        let (group, layer, z) = records[count - 1];
        z_by_layer(records, (count - 1) as nat).insert((group, layer), z)
    }
}

impl Topology {
    /// Whether both mappings can be counted.
    pub open spec fn wf(self) -> bool {
        self.z_to_layer.wf() && self.layer_to_z.wf()
    }

    /// Whether two snapshots say the same.
    pub open spec fn same(self, other: Topology) -> bool {
        &&& self.generation == other.generation
        &&& self.z_to_layer@ == other.z_to_layer@
        &&& self.layer_to_z@ == other.layer_to_z@
    }

    /// The node at a world position, if its z-level is known.
    pub open spec fn node(self, coords: TurfCoords) -> Option<LayeredNode> {
        if self.z_to_layer@.contains_key(coords.2) {
            let place = self.z_to_layer@[coords.2];
            Some(LayeredNode { group: place.group, layer: place.layer, x: coords.0, y: coords.1 })
        } else {
            None
        }
    }

    /// The z-level of a node, if its layer is known.
    pub open spec fn z_of(self, node: LayeredNode) -> Option<i16> {
        if self.layer_to_z@.contains_key((node.group, node.layer)) {
            Some(self.layer_to_z@[(node.group, node.layer)])
        } else {
            None
        }
    }

    /// Whether every layer's z-level leads back to the layer.
    pub open spec fn consistent(self) -> bool {
        forall|place: (i32, i16)| #[trigger]
            self.layer_to_z@.contains_key(place) ==> {
                let z = self.layer_to_z@[place];
                self.z_to_layer@.contains_key(z) && self.z_to_layer@[z] == (LayerLocation {
                    group: place.0,
                    layer: place.1,
                })
            }
    }

    /// Builds a snapshot from published records.
    pub fn new(generation: u64, records: &Vec<LayerRecord>) -> (topology: Self)
        ensures
            topology.wf(),
            topology.generation == generation,
            topology.z_to_layer@ == layers_by_z(records@, records@.len()),
            topology.layer_to_z@ == z_by_layer(records@, records@.len()),
    {
        let mut topology = Topology {
            generation,
            z_to_layer: PackedMap::new(),
            layer_to_z: PackedMap::new(),
        };
        let mut at: usize = 0;
        while at < records.len()
            invariant
                at <= records@.len(),
                topology.wf(),
                topology.generation == generation,
                topology.z_to_layer@ == layers_by_z(records@, at as nat),
                topology.layer_to_z@ == z_by_layer(records@, at as nat),
            decreases records@.len() - at,
        {
            let (group, layer, z) = records[at];
            topology.z_to_layer.insert(z, LayerLocation { group, layer });
            topology.layer_to_z.insert((group, layer), z);
            at = at + 1;
        }
        topology
    }

    /// Copies the snapshot.
    pub fn snapshot(&self) -> (copy: Self)
        ensures
            copy.same(*self),
            self.wf() ==> copy.wf(),
    {
        Topology {
            generation: self.generation,
            z_to_layer: self.z_to_layer.copied(),
            layer_to_z: self.layer_to_z.copied(),
        }
    }
}

/// Reads the topology generation.
pub fn topology_generation(topology: &Topology) -> (generation: u64)
    ensures
        generation == topology.generation,
{
    topology.generation
}

/// Converts world coordinates into a layered node.
pub fn node_for_xyz(topology: &Topology, x: i16, y: i16, z: i16) -> (node: Option<LayeredNode>)
    ensures
        node == topology.node((x, y, z)),
{
    match topology.z_to_layer.get(z) {
        Some(place) => Some(LayeredNode { group: place.group, layer: place.layer, x, y }),
        None => None,
    }
}

/// Whether no z-level is recorded for two places.
pub open spec fn one_place_per_z(records: Seq<LayerRecord>) -> bool {
    forall|i: int, j: int|
        0 <= i < j < records.len() && (#[trigger] records[i]).2 == (#[trigger] records[j]).2
            ==> records[i].0 == records[j].0 && records[i].1 == records[j].1
}

/// Records that give each z-level one place make a consistent snapshot.
pub proof fn law_one_place_per_z_is_consistent(topology: Topology, records: Seq<LayerRecord>)
    requires
        topology.z_to_layer@ == layers_by_z(records, records.len()),
        topology.layer_to_z@ == z_by_layer(records, records.len()),
        one_place_per_z(records),
    ensures
        topology.consistent(),
{
    assert forall|place: (i32, i16)| #[trigger]
        topology.layer_to_z@.contains_key(place) implies {
        let z = topology.layer_to_z@[place];
        topology.z_to_layer@.contains_key(z) && topology.z_to_layer@[z] == (LayerLocation {
            group: place.0,
            layer: place.1,
        })
    } by {
        lemma_recorded_place(records, records.len(), place);
        let z = topology.layer_to_z@[place];
        let i = choose|i: int|
            0 <= i < records.len() && #[trigger] records[i] == (place.0, place.1, z);
        lemma_recorded_z(records, records.len(), i);
    }
}

/// In a consistent snapshot the world position of a node leads back to the node.
pub proof fn law_positions_lead_back(topology: Topology, node: LayeredNode, z: i16)
    requires
        topology.consistent(),
        topology.z_of(node) == Some(z),
    ensures
        topology.node((node.x, node.y, z)) == Some(node),
{
    assert(topology.layer_to_z@.contains_key((node.group, node.layer)));
}

/// Each layer of the reverse mapping comes from a record.
proof fn lemma_recorded_place(records: Seq<LayerRecord>, count: nat, place: (i32, i16))
    requires
        count <= records.len(),
        z_by_layer(records, count).contains_key(place),
    ensures
        exists|i: int|
            0 <= i < count && #[trigger] records[i] == (
                place.0,
                place.1,
                z_by_layer(records, count)[place],
            ),
    decreases count,
{
    let last = records[count - 1];
    if (last.0, last.1) == place {
        assert(records[count - 1] == (place.0, place.1, z_by_layer(records, count)[place]));
    } else {
        lemma_recorded_place(records, (count - 1) as nat, place);
    }
}

/// Each recorded z-level has the place of any of its records.
proof fn lemma_recorded_z(records: Seq<LayerRecord>, count: nat, i: int)
    requires
        0 <= i < count <= records.len(),
        one_place_per_z(records),
    ensures
        layers_by_z(records, count).contains_key(records[i].2),
        layers_by_z(records, count)[records[i].2] == (LayerLocation {
            group: records[i].0,
            layer: records[i].1,
        }),
    decreases count,
{
    if i < count - 1 {
        lemma_recorded_z(records, (count - 1) as nat, i);
        assert(records[i].2 == records[count - 1].2 ==> records[i].0 == records[count - 1].0
            && records[i].1 == records[count - 1].1);
    }
}

/// A reusable transition from one turf to another.
#[derive(Clone, Copy, Debug, PartialEq, Eq)]
pub struct NavLink {
    /// Stable link identifier.
    pub id: u64,
    /// Link source turf.
    pub source: TurfCoords,
    /// Link destination turf.
    pub destination: TurfCoords,
    /// Traversal cost.
    pub cost: u32,
}

impl NavLink {
    /// Creates a link; taking it costs at least one.
    pub fn new(id: u64, source: TurfCoords, destination: TurfCoords, cost: u32) -> (link: Self)
        ensures
            link.id == id,
            link.source == source,
            link.destination == destination,
            link.cost == if cost < 1 {
                1
            } else {
                cost
            },
    {
        NavLink { id, source, destination, cost: if cost < 1 { 1 } else { cost } }
    }
}

/// The registered links after the first `count` of a list; a later one with the same identifier
/// wins.
pub open spec fn links_by_id(links: Seq<NavLink>, count: nat) -> Map<u64, NavLink>
    decreases count,
{
    if count == 0 {
        Map::empty()
    } else {
        links_by_id(links, (count - 1) as nat).insert(links[count - 1].id, links[count - 1])
    }
}

/// Replaces the registered links.
pub fn replace_links(registry: &mut HashMap<u64, NavLink>, links: &Vec<NavLink>)
    ensures
        final(registry)@ == links_by_id(links@, links@.len()),
{
    registry.clear();
    let mut at: usize = 0;
    while at < links.len()
        invariant
            at <= links@.len(),
            registry@ == links_by_id(links@, at as nat),
        decreases links@.len() - at,
    {
        let link = links[at];
        registry.insert(link.id, link);
        at = at + 1;
    }
}

/// Lists the registered links, each once, in no particular order.
pub fn list_links(registry: &HashMap<u64, NavLink>) -> (links: Vec<NavLink>)
    ensures
        exists|ids: Seq<u64>|
            {
                &&& #[trigger] ids.no_duplicates()
                &&& ids.to_set() == registry@.dom()
                &&& links@ == ids.map_values(|id: u64| registry@[id])
            },
{
    let mut links: Vec<NavLink> = Vec::new();
    let ghost ids = registry.keys().remaining().unref();
    for id in walk: registry.keys()
        invariant
            walk.seq().unref() == ids,
            forall|i: int|
                0 <= i < ids.len() ==> registry@.contains_key(#[trigger] ids[i]),
            links@ == ids.take(walk.index()).map_values(|id: u64| registry@[id]),
    {
        if let Some(link) = registry.get(id) {
            links.push(*link);
        }
    }
    proof {
        let keys = registry.keys().remaining();
        assert(ids.no_duplicates()) by {
            assert forall|i: int, j: int| 0 <= i < ids.len() && 0 <= j < ids.len() && i != j implies ids[i]
                != ids[j] by {
                assert(keys[i] != keys[j]);
            }
        }
        assert(ids.take(ids.len() as int) =~= ids);
        assert(links@ =~= ids.map_values(|id: u64| registry@[id]));
    }
    links
}

/// What can be told of the published data.
#[derive(Clone, Copy, Debug, PartialEq, Eq, Structural)]
pub struct StateCounts {
    /// Topology generation.
    pub generation: u64,
    /// Number of z-levels with a place.
    pub z_count: usize,
    /// Number of layers with a z-level.
    pub layer_count: usize,
    /// Number of registered links.
    pub link_count: usize,
}

/// Returns topology and link cache sizes for diagnostics.
pub fn state_counts(topology: &Topology, registry: &HashMap<u64, NavLink>) -> (counts: StateCounts)
    requires
        topology.wf(),
    ensures
        counts.generation == topology.generation,
        counts.z_count == topology.z_to_layer@.dom().len(),
        counts.layer_count == topology.layer_to_z@.dom().len(),
        counts.link_count == registry@.dom().len(),
{
    StateCounts {
        generation: topology.generation,
        z_count: topology.z_to_layer.len(),
        layer_count: topology.layer_to_z.len(),
        link_count: registry.len(),
    }
}

/// Whether a record is the last one for its z-level.
pub open spec fn last_for_z(records: Seq<LayerRecord>, i: int) -> bool {
    &&& 0 <= i < records.len()
    &&& forall|j: int| i < j < records.len() ==> (#[trigger] records[j]).2 != records[i].2
}

/// Whether a record is the last one for its layer.
pub open spec fn last_for_layer(records: Seq<LayerRecord>, i: int) -> bool {
    &&& 0 <= i < records.len()
    &&& forall|j: int|
        i < j < records.len() ==> (#[trigger] records[j]).0 != records[i].0 || records[j].1
            != records[i].1
}

proof fn lemma_last_record(records: Seq<LayerRecord>, count: nat, i: int, z: i16, place: (i32, i16))
    requires
        count <= records.len(),
        0 <= i < records.len(),
    ensures
        i < count && (forall|j: int| i < j < count ==> (#[trigger] records[j]).2 != records[i].2)
            ==> layers_by_z(records, count).contains_key(records[i].2) && layers_by_z(
            records,
            count,
        )[records[i].2] == (LayerLocation { group: records[i].0, layer: records[i].1 }),
        i < count && (forall|j: int|
            i < j < count ==> (#[trigger] records[j]).0 != records[i].0 || records[j].1
                != records[i].1) ==> z_by_layer(records, count).contains_key(
            (records[i].0, records[i].1),
        ) && z_by_layer(records, count)[(records[i].0, records[i].1)] == records[i].2,
        layers_by_z(records, count).contains_key(z) ==> exists|j: int|
            0 <= j < count && (#[trigger] records[j]).2 == z,
        z_by_layer(records, count).contains_key(place) ==> exists|j: int|
            0 <= j < count && (#[trigger] records[j]).0 == place.0 && records[j].1 == place.1,
    decreases count,
{
    if count > 0 {
        lemma_last_record(records, (count - 1) as nat, i, z, place);
        let last = count - 1;
        assert(records[last].2 == z ==> 0 <= last < count);
        if layers_by_z(records, count).contains_key(z) && records[last].2 != z {
            let j = choose|j: int| 0 <= j < last && (#[trigger] records[j]).2 == z;
            assert(0 <= j < count);
        }
        if z_by_layer(records, count).contains_key(place) && (records[last].0, records[last].1)
            != place {
            let j = choose|j: int|
                0 <= j < last && (#[trigger] records[j]).0 == place.0 && records[j].1 == place.1;
            assert(0 <= j < count);
        }
    }
}

/// The last record for a z-level gives its place, and the last one for a layer gives its z-level;
/// without a record there is neither.
pub proof fn law_last_record_counts(
    records: Seq<LayerRecord>,
    i: int,
    z: i16,
    place: (i32, i16),
)
    ensures
        last_for_z(records, i) ==> layers_by_z(records, records.len()).contains_key(records[i].2)
            && layers_by_z(records, records.len())[records[i].2].group == records[i].0
            && layers_by_z(records, records.len())[records[i].2].layer == records[i].1,
        last_for_layer(records, i) ==> z_by_layer(records, records.len()).contains_key(
            (records[i].0, records[i].1),
        ) && z_by_layer(records, records.len())[(records[i].0, records[i].1)] == records[i].2,
        (forall|j: int| 0 <= j < records.len() ==> (#[trigger] records[j]).2 != z) ==> !layers_by_z(
            records,
            records.len(),
        ).contains_key(z),
        (forall|j: int|
            0 <= j < records.len() ==> (#[trigger] records[j]).0 != place.0 || records[j].1
                != place.1) ==> !z_by_layer(records, records.len()).contains_key(place),
{
    if records.len() > 0 {
        let k: int = if 0 <= i < records.len() {
            i
        } else {
            0
        };
        lemma_last_record(records, records.len(), k, z, place);
    }
}

/// A world position has the place of its z-level and keeps its horizontal position; a node has the
/// z-level of its layer.
pub proof fn law_places_and_levels(topology: Topology, coords: TurfCoords, node: LayeredNode)
    ensures
        match topology.node(coords) {
            Some(at) => {
                &&& topology.z_to_layer@.contains_key(coords.2)
                &&& at.group == topology.z_to_layer@[coords.2].group
                &&& at.layer == topology.z_to_layer@[coords.2].layer
                &&& at.x == coords.0
                &&& at.y == coords.1
            },
            None => !topology.z_to_layer@.contains_key(coords.2),
        },
        match topology.z_of(node) {
            Some(z) => {
                &&& topology.layer_to_z@.contains_key((node.group, node.layer))
                &&& topology.layer_to_z@[(node.group, node.layer)] == z
            },
            None => !topology.layer_to_z@.contains_key((node.group, node.layer)),
        },
{
}

proof fn lemma_registered(links: Seq<NavLink>, count: nat, i: int, id: u64)
    requires
        count <= links.len(),
        0 <= i < links.len(),
    ensures
        i < count && (forall|j: int| i < j < count ==> (#[trigger] links[j]).id != links[i].id)
            ==> links_by_id(links, count).contains_key(links[i].id) && links_by_id(links, count)[
            links[i].id] == links[i],
        links_by_id(links, count).contains_key(id) ==> exists|j: int|
            0 <= j < count && (#[trigger] links[j]).id == id,
    decreases count,
{
    if count > 0 {
        lemma_registered(links, (count - 1) as nat, i, id);
        let last = count - 1;
        if links_by_id(links, count).contains_key(id) && links[last].id != id {
            let j = choose|j: int| 0 <= j < last && (#[trigger] links[j]).id == id;
            assert(0 <= j < count);
        }
    }
}

/// The last link with an identifier is the one that is registered under it, as it is; no other
/// identifier has one.
pub proof fn law_last_link_is_registered(links: Seq<NavLink>, i: int, id: u64)
    requires
        0 <= i < links.len(),
        forall|j: int| i < j < links.len() ==> (#[trigger] links[j]).id != links[i].id,
    ensures
        links_by_id(links, links.len()).contains_key(links[i].id),
        links_by_id(links, links.len())[links[i].id] == links[i],
        (forall|j: int| 0 <= j < links.len() ==> (#[trigger] links[j]).id != id) ==> !links_by_id(
            links,
            links.len(),
        ).contains_key(id),
        links_by_id(links, 0).dom().is_empty(),
{
    lemma_registered(links, links.len(), i, id);
    assert(links_by_id(links, 0).dom() =~= Set::<u64>::empty());
}

/// Snapshots that say the same have the same generation, places and levels.
pub proof fn law_same_snapshots(a: Topology, b: Topology)
    ensures
        a.same(b) <==> {
            &&& a.generation == b.generation
            &&& a.z_to_layer@ == b.z_to_layer@
            &&& a.layer_to_z@ == b.layer_to_z@
        },
{
}

} // verus!
