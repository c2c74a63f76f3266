//! Populating the observer model — registry, node records and edge set —
//! from a parsed network configuration.

use vstd::prelude::*;

use crate::graph::check_edges;
use crate::graph::client_server_wf;
use crate::graph::drone_wf;
use crate::graph::edge_matches;
use crate::graph::edges_unique;
use crate::graph::no_dup;
use crate::graph::spec_has_edge;
use crate::graph::ClientServerStruct;
use crate::graph::DroneStruct;
use crate::graph::EdgeStruct;
use crate::registry::get_node_type;
use crate::registry::kind_code;
use crate::registry::spec_node_type;
use crate::registry::NodeType;
use crate::registry::Registry;

verus! {

/// A drone as the configuration loader hands it over: its id, the ids of
/// its declared neighbors, and its drop-rate code (an opaque value chosen
/// by the presentation layer; this library never interprets it).
#[derive(Clone, Debug)]
pub struct ParsedDrone {
    pub id: u8,
    pub connected_drone_ids: Vec<u8>,
    pub pdr: u32,
}

/// A client as the configuration loader hands it over.
#[derive(Clone, Debug)]
pub struct ParsedClient {
    pub id: u8,
    pub connected_drone_ids: Vec<u8>,
}

/// A server as the configuration loader hands it over.
#[derive(Clone, Debug)]
pub struct ParsedServer {
    pub id: u8,
    pub connected_drone_ids: Vec<u8>,
}

/// A list of 8-bit ids, widened to the observer's id type.
pub open spec fn ids_i32(s: Seq<u8>) -> Seq<i32> {
    s.map_values(|x: u8| x as i32)
}

/// The ids of the configuration's drones, in declaration order.
pub open spec fn drone_ids(s: Seq<ParsedDrone>) -> Seq<i32> {
    s.map_values(|d: ParsedDrone| d.id as i32)
}

/// The ids of the configuration's clients, in declaration order.
pub open spec fn client_ids(s: Seq<ParsedClient>) -> Seq<i32> {
    s.map_values(|c: ParsedClient| c.id as i32)
}

/// The ids of the configuration's servers, in declaration order.
pub open spec fn server_ids(s: Seq<ParsedServer>) -> Seq<i32> {
    s.map_values(|c: ParsedServer| c.id as i32)
}

/// Every id of the configuration, drones first, then clients, then servers.
pub open spec fn all_ids(
    pd: Seq<ParsedDrone>,
    pc: Seq<ParsedClient>,
    ps: Seq<ParsedServer>,
) -> Seq<i32> {
    drone_ids(pd) + client_ids(pc) + server_ids(ps)
}

/// A valid configuration: ids are globally unique, no node declares a
/// neighbor twice, and no node declares itself as a neighbor.
pub open spec fn config_wf(
    pd: Seq<ParsedDrone>,
    pc: Seq<ParsedClient>,
    ps: Seq<ParsedServer>,
) -> bool {
    &&& no_dup(all_ids(pd, pc, ps))
    &&& forall|i: int|
        0 <= i < pd.len() ==> no_dup(ids_i32((#[trigger] pd[i]).connected_drone_ids@))
            && !pd[i].connected_drone_ids@.contains(pd[i].id)
    &&& forall|i: int|
        0 <= i < pc.len() ==> no_dup(ids_i32((#[trigger] pc[i]).connected_drone_ids@))
            && !pc[i].connected_drone_ids@.contains(pc[i].id)
    &&& forall|i: int|
        0 <= i < ps.len() ==> no_dup(ids_i32((#[trigger] ps[i]).connected_drone_ids@))
            && !ps[i].connected_drone_ids@.contains(ps[i].id)
}

/// Whether the configuration holds a drone with id `id`.
pub open spec fn is_drone_id(pd: Seq<ParsedDrone>, id: int) -> bool {
    exists|i: int| 0 <= i < pd.len() && pd[i].id as int == id
}

/// Whether the configuration holds a client with id `id`.
pub open spec fn is_client_id(pc: Seq<ParsedClient>, id: int) -> bool {
    exists|i: int| 0 <= i < pc.len() && pc[i].id as int == id
}

/// Whether the configuration holds a server with id `id`.
pub open spec fn is_server_id(ps: Seq<ParsedServer>, id: int) -> bool {
    exists|i: int| 0 <= i < ps.len() && ps[i].id as int == id
}

/// The position of the drone with id `id` within the drone vector.
pub open spec fn drone_index(pd: Seq<ParsedDrone>, id: int) -> int {
    choose|i: int| 0 <= i < pd.len() && pd[i].id as int == id
}

/// The position of the client with id `id` within the client vector.
pub open spec fn client_index(pc: Seq<ParsedClient>, id: int) -> int {
    choose|i: int| 0 <= i < pc.len() && pc[i].id as int == id
}

/// The position of the server with id `id` within the server vector.
pub open spec fn server_index(ps: Seq<ParsedServer>, id: int) -> int {
    choose|i: int| 0 <= i < ps.len() && ps[i].id as int == id
}

/// The registry a build of this configuration produces: each id mapped to
/// its kind and to its position within that kind's vector.
pub open spec fn registry_spec(
    pd: Seq<ParsedDrone>,
    pc: Seq<ParsedClient>,
    ps: Seq<ParsedServer>,
) -> Map<int, (NodeType, int)> {
    Map::new(
        |id: int| is_drone_id(pd, id) || is_client_id(pc, id) || is_server_id(ps, id),
        |id: int|
            if is_drone_id(pd, id) {
                (NodeType::Drone, drone_index(pd, id))
            } else if is_client_id(pc, id) {
                (NodeType::Client, client_index(pc, id))
            } else {
                (NodeType::Server, server_index(ps, id))
            },
    )
}

/// Whether some node of the configuration declares the link (a, b), with
/// `a` the declaring side.
pub open spec fn declares(
    pd: Seq<ParsedDrone>,
    pc: Seq<ParsedClient>,
    ps: Seq<ParsedServer>,
    a: i32,
    b: i32,
) -> bool {
    ||| exists|i: int|
        0 <= i < pd.len() && pd[i].id as i32 == a && ids_i32(pd[i].connected_drone_ids@).contains(b)
    ||| exists|i: int|
        0 <= i < pc.len() && pc[i].id as i32 == a && ids_i32(pc[i].connected_drone_ids@).contains(b)
    ||| exists|i: int|
        0 <= i < ps.len() && ps[i].id as i32 == a && ids_i32(ps[i].connected_drone_ids@).contains(b)
}

/// Whether the edge's unordered pair is declared by some node of the
/// configuration, from either side.
pub open spec fn edge_declared(
    pd: Seq<ParsedDrone>,
    pc: Seq<ParsedClient>,
    ps: Seq<ParsedServer>,
    e: EdgeStruct,
) -> bool {
    declares(pd, pc, ps, e.id1, e.id2) || declares(pd, pc, ps, e.id2, e.id1)
}

/// Whether one of the first `upto` drones declares the edge's unordered
/// pair, from either side.
pub open spec fn drone_declared_edge(pd: Seq<ParsedDrone>, upto: int, e: EdgeStruct) -> bool {
    exists|m: int|
        0 <= m < upto && m < pd.len() && ((pd[m].id as i32 == e.id1 && ids_i32(
            pd[m].connected_drone_ids@,
        ).contains(e.id2)) || (pd[m].id as i32 == e.id2 && ids_i32(
            pd[m].connected_drone_ids@,
        ).contains(e.id1)))
}

/// Whether one of the first `upto` clients declares the edge's unordered
/// pair, from either side.
pub open spec fn client_declared_edge(pc: Seq<ParsedClient>, upto: int, e: EdgeStruct) -> bool {
    exists|m: int|
        0 <= m < upto && m < pc.len() && ((pc[m].id as i32 == e.id1 && ids_i32(
            pc[m].connected_drone_ids@,
        ).contains(e.id2)) || (pc[m].id as i32 == e.id2 && ids_i32(
            pc[m].connected_drone_ids@,
        ).contains(e.id1)))
}

/// Whether one of the first `upto` servers declares the edge's unordered
/// pair, from either side.
pub open spec fn server_declared_edge(ps: Seq<ParsedServer>, upto: int, e: EdgeStruct) -> bool {
    exists|m: int|
        0 <= m < upto && m < ps.len() && ((ps[m].id as i32 == e.id1 && ids_i32(
            ps[m].connected_drone_ids@,
        ).contains(e.id2)) || (ps[m].id as i32 == e.id2 && ids_i32(
            ps[m].connected_drone_ids@,
        ).contains(e.id1)))
}

/// Whether `edges` holds an edge for every pair declared by the first
/// `upto` drones.
pub open spec fn drone_pairs_covered(pd: Seq<ParsedDrone>, upto: int, edges: Seq<EdgeStruct>) -> bool {
    forall|m: int, y: i32|
        0 <= m < upto && m < pd.len() && #[trigger] ids_i32(pd[m].connected_drone_ids@).contains(y)
            ==> spec_has_edge(edges, pd[m].id as int, y as int)
}

/// Whether `edges` holds an edge for every pair declared by the first
/// `upto` clients.
pub open spec fn client_pairs_covered(pc: Seq<ParsedClient>, upto: int, edges: Seq<EdgeStruct>) -> bool {
    forall|m: int, y: i32|
        0 <= m < upto && m < pc.len() && #[trigger] ids_i32(pc[m].connected_drone_ids@).contains(y)
            ==> spec_has_edge(edges, pc[m].id as int, y as int)
}

/// Whether `edges` holds an edge for every pair declared by the first
/// `upto` servers.
pub open spec fn server_pairs_covered(ps: Seq<ParsedServer>, upto: int, edges: Seq<EdgeStruct>) -> bool {
    forall|m: int, y: i32|
        0 <= m < upto && m < ps.len() && #[trigger] ids_i32(ps[m].connected_drone_ids@).contains(y)
            ==> spec_has_edge(edges, ps[m].id as int, y as int)
}

/// Covered pairs stay covered in any extension of the edge sequence.
proof fn lemma_covered_extend(
    pd: Seq<ParsedDrone>,
    pc: Seq<ParsedClient>,
    ps: Seq<ParsedServer>,
    ud: int,
    uc: int,
    us: int,
    pre: Seq<EdgeStruct>,
    post: Seq<EdgeStruct>,
)
    requires
        pre.len() <= post.len(),
        forall|k: int| 0 <= k < pre.len() ==> post[k] == pre[k],
        drone_pairs_covered(pd, ud, pre),
        client_pairs_covered(pc, uc, pre),
        server_pairs_covered(ps, us, pre),
    ensures
        drone_pairs_covered(pd, ud, post),
        client_pairs_covered(pc, uc, post),
        server_pairs_covered(ps, us, post),
{
    lemma_extension_preserves_has_edge(pre, post);
}

/// Whether the edge's denormalized kind and position fields agree with the
/// registry on both endpoints.
pub open spec fn edge_fields_ok(e: EdgeStruct, reg: Map<int, (NodeType, int)>) -> bool {
    &&& (e.node_type1 as int, e.index1 as int) == spec_node_type(reg, e.id1 as int)
    &&& (e.node_type2 as int, e.index2 as int) == spec_node_type(reg, e.id2 as int)
}

/// What a build guarantees of the drone records.
pub open spec fn built_drones(pd: Seq<ParsedDrone>, drones: Seq<DroneStruct>) -> bool {
    &&& drones.len() == pd.len()
    &&& forall|i: int|
        0 <= i < pd.len() ==> {
            let d = #[trigger] drones[i];
            &&& d.id == pd[i].id as i32
            &&& d.position_in_vector == i as i32
            &&& d.pdr == pd[i].pdr
            &&& d.crashed == false
            &&& d.adjacent@ == ids_i32(pd[i].connected_drone_ids@)
            &&& forall|y: i32|
                #[trigger] d.not_adjacent@.contains(y) <==> (drone_ids(pd).contains(y) && y != d.id
                    && !d.adjacent@.contains(y))
            &&& drone_wf(d)
        }
}

/// What a build guarantees of the client records.
pub open spec fn built_clients(pc: Seq<ParsedClient>, clients: Seq<ClientServerStruct>, pd: Seq<ParsedDrone>) -> bool {
    &&& clients.len() == pc.len()
    &&& forall|i: int|
        0 <= i < pc.len() ==> {
            let c = #[trigger] clients[i];
            &&& c.id == pc[i].id as i32
            &&& c.position_in_vector == i as i32
            &&& c.drones_adjacent@ == ids_i32(pc[i].connected_drone_ids@)
            &&& forall|y: i32|
                #[trigger] c.drones_not_adjacent@.contains(y) <==> (drone_ids(pd).contains(y) && y
                    != c.id && !c.drones_adjacent@.contains(y))
            &&& client_server_wf(c)
        }
}

/// What a build guarantees of the server records.
pub open spec fn built_servers(ps: Seq<ParsedServer>, servers: Seq<ClientServerStruct>, pd: Seq<ParsedDrone>) -> bool {
    &&& servers.len() == ps.len()
    &&& forall|i: int|
        0 <= i < ps.len() ==> {
            let c = #[trigger] servers[i];
            &&& c.id == ps[i].id as i32
            &&& c.position_in_vector == i as i32
            &&& c.drones_adjacent@ == ids_i32(ps[i].connected_drone_ids@)
            &&& forall|y: i32|
                #[trigger] c.drones_not_adjacent@.contains(y) <==> (drone_ids(pd).contains(y) && y
                    != c.id && !c.drones_adjacent@.contains(y))
            &&& client_server_wf(c)
        }
}

/// What a build guarantees of the edge set: exactly one edge per declared
/// unordered pair, each stored canonically with the lower id first, every
/// edge declared, and every edge's denormalized fields taken from the
/// registry.
pub open spec fn built_edges(
    pd: Seq<ParsedDrone>,
    pc: Seq<ParsedClient>,
    ps: Seq<ParsedServer>,
    edges: Seq<EdgeStruct>,
) -> bool {
    &&& edges_unique(edges)
    &&& forall|k: int| 0 <= k < edges.len() ==> (#[trigger] edges[k]).id1 < edges[k].id2
    &&& forall|k: int| 0 <= k < edges.len() ==> edge_declared(pd, pc, ps, #[trigger] edges[k])
    &&& forall|k: int|
        0 <= k < edges.len() ==> edge_fields_ok(#[trigger] edges[k], registry_spec(pd, pc, ps))
    &&& forall|a: i32, b: i32|
        #[trigger] declares(pd, pc, ps, a, b) ==> spec_has_edge(edges, a as int, b as int)
}

/// An edge present in a sequence stays present in any extension of it.
proof fn lemma_extension_preserves_has_edge(pre: Seq<EdgeStruct>, post: Seq<EdgeStruct>)
    requires
        pre.len() <= post.len(),
        forall|k: int| 0 <= k < pre.len() ==> post[k] == pre[k],
    ensures
        forall|a: int, b: int| #[trigger] spec_has_edge(pre, a, b) ==> spec_has_edge(post, a, b),
{
    assert forall|a: int, b: int| #[trigger] spec_has_edge(pre, a, b) implies spec_has_edge(
        post,
        a,
        b,
    ) by {
        let k = choose|k: int| 0 <= k < pre.len() && edge_matches(pre[k], a, b);
        assert(edge_matches(post[k], a, b));
    }
}

/// Distinctness of ids, spelled out pairwise: within each kind and across
/// kinds.
proof fn lemma_config_ids_unique(pd: Seq<ParsedDrone>, pc: Seq<ParsedClient>, ps: Seq<ParsedServer>)
    requires
        no_dup(all_ids(pd, pc, ps)),
    ensures
        forall|m1: int, m2: int|
            0 <= m1 < pd.len() && 0 <= m2 < pd.len() && m1 != m2 ==> (#[trigger] pd[m1]).id != (
            #[trigger] pd[m2]).id,
        forall|m1: int, m2: int|
            0 <= m1 < pc.len() && 0 <= m2 < pc.len() && m1 != m2 ==> (#[trigger] pc[m1]).id != (
            #[trigger] pc[m2]).id,
        forall|m1: int, m2: int|
            0 <= m1 < ps.len() && 0 <= m2 < ps.len() && m1 != m2 ==> (#[trigger] ps[m1]).id != (
            #[trigger] ps[m2]).id,
        forall|m1: int, m2: int|
            0 <= m1 < pd.len() && 0 <= m2 < pc.len() ==> (#[trigger] pd[m1]).id != (
            #[trigger] pc[m2]).id,
        forall|m1: int, m2: int|
            0 <= m1 < pd.len() && 0 <= m2 < ps.len() ==> (#[trigger] pd[m1]).id != (
            #[trigger] ps[m2]).id,
        forall|m1: int, m2: int|
            0 <= m1 < pc.len() && 0 <= m2 < ps.len() ==> (#[trigger] pc[m1]).id != (
            #[trigger] ps[m2]).id,
{
    let all = all_ids(pd, pc, ps);
    assert(forall|m: int|
        0 <= m < pd.len() ==> all[m] == (#[trigger] pd[m]).id as i32);
    assert(forall|m: int|
        0 <= m < pc.len() ==> all[pd.len() + m] == (#[trigger] pc[m]).id as i32);
    assert(forall|m: int|
        0 <= m < ps.len() ==> all[pd.len() + pc.len() + m] == (#[trigger] ps[m]).id as i32);
}

/// Widen a list of 8-bit ids to the observer's id type.
fn widen_ids(src: &Vec<u8>) -> (out: Vec<i32>)
    ensures
        out@ == ids_i32(src@),
{
    let n = src.len();
    let mut out: Vec<i32> = Vec::new();
    let mut i: usize = 0;
    while i < n
        invariant
            n == src@.len(),
            0 <= i <= n,
            out@.len() == i,
            forall|j: int| 0 <= j < i ==> out@[j] == src@[j] as i32,
        decreases n - i,
    {
        out.push(src[i] as i32);
        i = i + 1;
    }
    proof {
        assert(out@ =~= ids_i32(src@));
    }
    out
}

/// The drone ids a node is not connected to: every drone id other than the
/// node's own that is absent from its adjacent list.
fn not_adjacent_of(parsed_drones: &Vec<ParsedDrone>, adjacent: &Vec<i32>, self_id: i32) -> (out:
    Vec<i32>)
    requires
        no_dup(drone_ids(parsed_drones@)),
    ensures
        no_dup(out@),
        forall|y: i32|
            #[trigger] out@.contains(y) <==> (drone_ids(parsed_drones@).contains(y) && y != self_id
                && !adjacent@.contains(y)),
{
    let n = parsed_drones.len();
    let mut out: Vec<i32> = Vec::new();
    let mut i: usize = 0;
    while i < n
        invariant
            n == parsed_drones@.len(),
            no_dup(drone_ids(parsed_drones@)),
            0 <= i <= n,
            no_dup(out@),
            forall|y: i32|
                #[trigger] out@.contains(y) <==> (exists|j: int|
                    0 <= j < i && parsed_drones@[j].id as i32 == y) && y != self_id
                    && !adjacent@.contains(y),
        decreases n - i,
    {
        let d_id = parsed_drones[i].id as i32;
        let ghost pre = out@;
        if d_id != self_id && !crate::graph::contains_id(adjacent, d_id) {
            proof {
                assert(!pre.contains(d_id)) by {
                    if pre.contains(d_id) {
                        let j = choose|j: int|
                            0 <= j < i && parsed_drones@[j].id as i32 == d_id;
                        assert(drone_ids(parsed_drones@)[j] == d_id);
                        assert(drone_ids(parsed_drones@)[i as int] == d_id);
                    }
                }
            }
            out.push(d_id);
            proof {
                assert(no_dup(out@)) by {
                    assert(forall|j: int| 0 <= j < pre.len() ==> out@[j] == pre[j]);
                }
                assert forall|y: i32| #[trigger] out@.contains(y) implies ((exists|j: int|
                    0 <= j < i + 1 && parsed_drones@[j].id as i32 == y) && y != self_id
                    && !adjacent@.contains(y)) by {
                    let j = choose|j: int| 0 <= j < out@.len() && out@[j] == y;
                    if j < pre.len() {
                        assert(pre.contains(y));
                    } else {
                        assert(y == d_id);
                        assert(parsed_drones@[i as int].id as i32 == y);
                    }
                }
                assert forall|y: i32| ((exists|j: int|
                    0 <= j < i + 1 && parsed_drones@[j].id as i32 == y) && y != self_id
                    && !adjacent@.contains(y)) implies #[trigger] out@.contains(y) by {
                    let j = choose|j: int| 0 <= j < i + 1 && parsed_drones@[j].id as i32 == y;
                    if j < i {
                        assert(pre.contains(y));
                        let m = choose|m: int| 0 <= m < pre.len() && pre[m] == y;
                        assert(out@[m] == y);
                    } else {
                        assert(out@[out@.len() - 1] == y);
                    }
                }
            }
        } else {
            proof {
                assert forall|y: i32| #[trigger] out@.contains(y) implies ((exists|j: int|
                    0 <= j < i + 1 && parsed_drones@[j].id as i32 == y) && y != self_id
                    && !adjacent@.contains(y)) by {}
                assert forall|y: i32| ((exists|j: int|
                    0 <= j < i + 1 && parsed_drones@[j].id as i32 == y) && y != self_id
                    && !adjacent@.contains(y)) implies #[trigger] out@.contains(y) by {
                    let j = choose|j: int| 0 <= j < i + 1 && parsed_drones@[j].id as i32 == y;
                    if j == i {
                        assert(y == d_id);
                        assert(d_id == self_id || adjacent@.contains(d_id));
                    } else {
                        assert(exists|jj: int| 0 <= jj < i && parsed_drones@[jj].id as i32 == y);
                    }
                }
            }
        }
        i = i + 1;
    }
    proof {
        assert forall|y: i32| drone_ids(parsed_drones@).contains(y) implies (exists|j: int|
            0 <= j < n && parsed_drones@[j].id as i32 == y) by {
            let j = choose|j: int|
                0 <= j < drone_ids(parsed_drones@).len() && drone_ids(parsed_drones@)[j] == y;
        }
        assert forall|y: i32| (exists|j: int|
            0 <= j < n && parsed_drones@[j].id as i32 == y) implies drone_ids(
            parsed_drones@,
        ).contains(y) by {
            let j = choose|j: int| 0 <= j < n && parsed_drones@[j].id as i32 == y;
            assert(drone_ids(parsed_drones@)[j] == y);
        }
    }
    out
}

/// Append one canonically ordered edge — the lower id first, as the data
/// model fixes an Edge — for each declared neighbor of one node whose
/// unordered pair is not yet present. The node's own kind code and
/// position are `self_type` and `self_index`; the neighbor's are looked
/// up, and each side's fields stand with its id.
fn add_edges_for(
    edges: &mut Vec<EdgeStruct>,
    self_id: i32,
    self_type: i32,
    self_index: i32,
    connected: &Vec<u8>,
    reg: &Registry,
)
    requires
        edges_unique(old(edges)@),
        (self_type as int, self_index as int) == spec_node_type(reg@, self_id as int),
        !ids_i32(connected@).contains(self_id),
    ensures
        edges_unique(final(edges)@),
        old(edges)@.len() <= final(edges)@.len(),
        forall|k: int| 0 <= k < old(edges)@.len() ==> final(edges)@[k] == old(edges)@[k],
        forall|k: int|
            old(edges)@.len() <= k < final(edges)@.len() ==> {
                let e = #[trigger] final(edges)@[k];
                &&& e.id1 < e.id2
                &&& ((e.id1 == self_id && ids_i32(connected@).contains(e.id2)) || (e.id2 == self_id
                    && ids_i32(connected@).contains(e.id1)))
                &&& edge_fields_ok(e, reg@)
            },
        forall|y: i32|
            ids_i32(connected@).contains(y) ==> spec_has_edge(
                final(edges)@,
                self_id as int,
                y as int,
            ),
{
    let n = connected.len();
    let mut j: usize = 0;
    while j < n
        invariant
            n == connected@.len(),
            0 <= j <= n,
            (self_type as int, self_index as int) == spec_node_type(reg@, self_id as int),
            !ids_i32(connected@).contains(self_id),
            edges_unique(edges@),
            old(edges)@.len() <= edges@.len(),
            forall|k: int| 0 <= k < old(edges)@.len() ==> edges@[k] == old(edges)@[k],
            forall|k: int|
                old(edges)@.len() <= k < edges@.len() ==> {
                    let e = #[trigger] edges@[k];
                    &&& e.id1 < e.id2
                    &&& ((e.id1 == self_id && ids_i32(connected@).contains(e.id2)) || (e.id2
                        == self_id && ids_i32(connected@).contains(e.id1)))
                    &&& edge_fields_ok(e, reg@)
                },
            forall|jj: int|
                0 <= jj < j ==> spec_has_edge(
                    edges@,
                    self_id as int,
                    (#[trigger] connected@[jj]) as int,
                ),
        decreases n - j,
    {
        let ghost pre = edges@;
        let adj_id = connected[j] as i32;
        proof {
            assert(ids_i32(connected@)[j as int] == adj_id);
            assert(ids_i32(connected@).contains(adj_id));
            assert(adj_id != self_id);
        }
        if !check_edges(edges, self_id, adj_id) {
            let (node_type2, index2) = get_node_type(adj_id, reg);
            let edge = if self_id < adj_id {
                EdgeStruct {
                    id1: self_id,
                    id2: adj_id,
                    node_type1: self_type,
                    node_type2,
                    index1: self_index,
                    index2,
                }
            } else {
                EdgeStruct {
                    id1: adj_id,
                    id2: self_id,
                    node_type1: node_type2,
                    node_type2: self_type,
                    index1: index2,
                    index2: self_index,
                }
            };
            edges.push(edge);
            proof {
                assert(forall|k: int| 0 <= k < pre.len() ==> edges@[k] == pre[k]);
                assert(edges_unique(edges@)) by {
                    assert forall|k1: int, k2: int|
                        0 <= k1 < k2 < edges@.len() implies !edge_matches(
                        edges@[k1],
                        edges@[k2].id1 as int,
                        edges@[k2].id2 as int,
                    ) by {
                        if k2 == edges@.len() - 1 {
                            assert(!spec_has_edge(pre, self_id as int, adj_id as int));
                            assert(!edge_matches(pre[k1], self_id as int, adj_id as int));
                        }
                    }
                }
                lemma_extension_preserves_has_edge(pre, edges@);
                assert(edge_matches(edges@[edges@.len() - 1], self_id as int, adj_id as int));
            }
        }
        j = j + 1;
    }
    proof {
        assert forall|y: i32| ids_i32(connected@).contains(y) implies spec_has_edge(
            edges@,
            self_id as int,
            y as int,
        ) by {
            let jj = choose|jj: int|
                0 <= jj < ids_i32(connected@).len() && ids_i32(connected@)[jj] == y;
            assert(connected@[jj] as int == y as int);
            assert(spec_has_edge(edges@, self_id as int, connected@[jj] as int));
        }
    }
}

/// Build the whole observer model from a parsed configuration: register
/// every node with its kind and position, then derive each node's
/// adjacent and not-adjacent lists and the deduplicated edge set, each
/// edge stored canonically with the lower id first.
///
/// The id space is 8 bits wide, so a configuration with globally unique
/// ids has at most 256 nodes; the explicit bound keeps positions within
/// the observer's id type.
#[verifier::loop_isolation(false)]
#[verifier::rlimit(60)]
pub fn populate_all(
    parsed_drones: &Vec<ParsedDrone>,
    parsed_servers: &Vec<ParsedServer>,
    parsed_clients: &Vec<ParsedClient>,
    edges: &mut Vec<EdgeStruct>,
    id_to_type: &mut Registry,
) -> (res: (Vec<DroneStruct>, Vec<ClientServerStruct>, Vec<ClientServerStruct>))
    requires
        config_wf(parsed_drones@, parsed_clients@, parsed_servers@),
        parsed_drones@.len() + parsed_clients@.len() + parsed_servers@.len() <= 256,
        old(edges)@.len() == 0,
        old(id_to_type)@ == Map::<int, (NodeType, int)>::empty(),
    ensures
        final(id_to_type)@ == registry_spec(parsed_drones@, parsed_clients@, parsed_servers@),
        built_drones(parsed_drones@, res.0@),
        built_clients(parsed_clients@, res.1@, parsed_drones@),
        built_servers(parsed_servers@, res.2@, parsed_drones@),
        built_edges(parsed_drones@, parsed_clients@, parsed_servers@, final(edges)@),
{
    let ghost pd = parsed_drones@;
    let ghost pc = parsed_clients@;
    let ghost ps = parsed_servers@;
    proof {
        lemma_config_ids_unique(pd, pc, ps);
    }

    let nd = parsed_drones.len();
    let nc = parsed_clients.len();
    let ns = parsed_servers.len();

    // Register every node: id -> (kind, position within its kind's vector).
    let mut i: usize = 0;
    while i < nd
        invariant
            0 <= i <= nd,
            forall|m: int|
                0 <= m < i ==> id_to_type@.dom().contains((#[trigger] pd[m]).id as int)
                    && id_to_type@[pd[m].id as int] == (NodeType::Drone, m as int),
            forall|id: int|
                #[trigger] id_to_type@.dom().contains(id) ==> exists|m: int|
                    0 <= m < i && pd[m].id as int == id,
        decreases nd - i,
    {
        proof {
            if id_to_type@.dom().contains(pd[i as int].id as int) {
                let m = choose|m: int| 0 <= m < i && pd[m].id as int == pd[i as int].id as int;
                assert(pd[m].id == pd[i as int].id);
            }
        }
        id_to_type.insert(parsed_drones[i].id as i32, NodeType::Drone, i as i32);
        i = i + 1;
    }

    let mut i: usize = 0;
    while i < nc
        invariant
            0 <= i <= nc,
            forall|m: int|
                0 <= m < nd ==> id_to_type@.dom().contains((#[trigger] pd[m]).id as int)
                    && id_to_type@[pd[m].id as int] == (NodeType::Drone, m as int),
            forall|m: int|
                0 <= m < i ==> id_to_type@.dom().contains((#[trigger] pc[m]).id as int)
                    && id_to_type@[pc[m].id as int] == (NodeType::Client, m as int),
            forall|id: int|
                #[trigger] id_to_type@.dom().contains(id) ==> (exists|m: int|
                    0 <= m < nd && pd[m].id as int == id) || (exists|m: int|
                    0 <= m < i && pc[m].id as int == id),
        decreases nc - i,
    {
        proof {
            if id_to_type@.dom().contains(pc[i as int].id as int) {
                if exists|m: int| 0 <= m < nd && pd[m].id as int == pc[i as int].id as int {
                    let m = choose|m: int| 0 <= m < nd && pd[m].id as int == pc[i as int].id as int;
                    assert(pd[m].id == pc[i as int].id);
                } else {
                    let m = choose|m: int| 0 <= m < i && pc[m].id as int == pc[i as int].id as int;
                    assert(pc[m].id == pc[i as int].id);
                }
            }
        }
        id_to_type.insert(parsed_clients[i].id as i32, NodeType::Client, i as i32);
        i = i + 1;
    }

    let mut i: usize = 0;
    while i < ns
        invariant
            0 <= i <= ns,
            forall|m: int|
                0 <= m < nd ==> id_to_type@.dom().contains((#[trigger] pd[m]).id as int)
                    && id_to_type@[pd[m].id as int] == (NodeType::Drone, m as int),
            forall|m: int|
                0 <= m < nc ==> id_to_type@.dom().contains((#[trigger] pc[m]).id as int)
                    && id_to_type@[pc[m].id as int] == (NodeType::Client, m as int),
            forall|m: int|
                0 <= m < i ==> id_to_type@.dom().contains((#[trigger] ps[m]).id as int)
                    && id_to_type@[ps[m].id as int] == (NodeType::Server, m as int),
            forall|id: int|
                #[trigger] id_to_type@.dom().contains(id) ==> (exists|m: int|
                    0 <= m < nd && pd[m].id as int == id) || (exists|m: int|
                    0 <= m < nc && pc[m].id as int == id) || (exists|m: int|
                    0 <= m < i && ps[m].id as int == id),
        decreases ns - i,
    {
        proof {
            if id_to_type@.dom().contains(ps[i as int].id as int) {
                if exists|m: int| 0 <= m < nd && pd[m].id as int == ps[i as int].id as int {
                    let m = choose|m: int| 0 <= m < nd && pd[m].id as int == ps[i as int].id as int;
                    assert(pd[m].id == ps[i as int].id);
                } else if exists|m: int| 0 <= m < nc && pc[m].id as int == ps[i as int].id as int {
                    let m = choose|m: int| 0 <= m < nc && pc[m].id as int == ps[i as int].id as int;
                    assert(pc[m].id == ps[i as int].id);
                } else {
                    let m = choose|m: int| 0 <= m < i && ps[m].id as int == ps[i as int].id as int;
                    assert(ps[m].id == ps[i as int].id);
                }
            }
        }
        id_to_type.insert(parsed_servers[i].id as i32, NodeType::Server, i as i32);
        i = i + 1;
    }

    proof {
        assert(id_to_type@ =~= registry_spec(pd, pc, ps)) by {
            assert forall|id: int| #[trigger] id_to_type@.dom().contains(id) implies registry_spec(
                pd,
                pc,
                ps,
            ).dom().contains(id) && id_to_type@[id] == registry_spec(pd, pc, ps)[id] by {
                if is_drone_id(pd, id) {
                    let m = choose|m: int| 0 <= m < pd.len() && pd[m].id as int == id;
                    assert(id_to_type@[id] == (NodeType::Drone, m));
                    assert(drone_index(pd, id) == m) by {
                        let m2 = drone_index(pd, id);
                        assert(pd[m2].id as int == id);
                    }
                } else if is_client_id(pc, id) {
                    let m = choose|m: int| 0 <= m < pc.len() && pc[m].id as int == id;
                    assert(id_to_type@[id] == (NodeType::Client, m));
                    assert(client_index(pc, id) == m) by {
                        let m2 = client_index(pc, id);
                        assert(pc[m2].id as int == id);
                    }
                } else {
                    assert(is_server_id(ps, id));
                    let m = choose|m: int| 0 <= m < ps.len() && ps[m].id as int == id;
                    assert(id_to_type@[id] == (NodeType::Server, m));
                    assert(server_index(ps, id) == m) by {
                        let m2 = server_index(ps, id);
                        assert(ps[m2].id as int == id);
                    }
                }
            }
            assert forall|id: int| registry_spec(pd, pc, ps).dom().contains(id) implies
                #[trigger] id_to_type@.dom().contains(id) by {}
        }
    }

    // Build the drone records, creating one edge per declared pair.
    let mut drones: Vec<DroneStruct> = Vec::new();
    let mut i: usize = 0;
    while i < nd
        invariant
            0 <= i <= nd,
            drones@.len() == i,
            id_to_type@ == registry_spec(pd, pc, ps),
            forall|m: int|
                0 <= m < i ==> {
                    let d = #[trigger] drones@[m];
                    &&& d.id == pd[m].id as i32
                    &&& d.position_in_vector == m as i32
                    &&& d.pdr == pd[m].pdr
                    &&& d.crashed == false
                    &&& d.adjacent@ == ids_i32(pd[m].connected_drone_ids@)
                    &&& forall|y: i32|
                        #[trigger] d.not_adjacent@.contains(y) <==> (drone_ids(pd).contains(y) && y
                            != d.id && !d.adjacent@.contains(y))
                    &&& drone_wf(d)
                },
            edges_unique(edges@),
            forall|k: int| 0 <= k < edges@.len() ==> (#[trigger] edges@[k]).id1 < edges@[k].id2,
            forall|k: int|
                0 <= k < edges@.len() ==> drone_declared_edge(pd, i as int, #[trigger] edges@[k])
                    && edge_fields_ok(edges@[k], id_to_type@),
            drone_pairs_covered(pd, i as int, edges@),
        decreases nd - i,
    {
        let self_id = parsed_drones[i].id as i32;
        let adjacent = widen_ids(&parsed_drones[i].connected_drone_ids);
        proof {
            assert(id_to_type@[self_id as int] == (NodeType::Drone, i as int));
            assert(spec_node_type(id_to_type@, self_id as int) == (0int, i as int));
            assert(!ids_i32(pd[i as int].connected_drone_ids@).contains(self_id)) by {
                if ids_i32(pd[i as int].connected_drone_ids@).contains(self_id) {
                    let jj = choose|jj: int|
                        0 <= jj < ids_i32(pd[i as int].connected_drone_ids@).len() && ids_i32(
                            pd[i as int].connected_drone_ids@,
                        )[jj] == self_id;
                    assert(pd[i as int].connected_drone_ids@[jj] == pd[i as int].id);
                    assert(pd[i as int].connected_drone_ids@.contains(pd[i as int].id));
                }
            }
        }
        let ghost pre = edges@;
        add_edges_for(edges, self_id, 0, i as i32, &parsed_drones[i].connected_drone_ids, id_to_type);
        proof {
            lemma_covered_extend(pd, pc, ps, i as int, 0, 0, pre, edges@);
            assert forall|k: int| 0 <= k < edges@.len() implies drone_declared_edge(
                pd,
                i as int + 1,
                #[trigger] edges@[k],
            ) && edge_fields_ok(edges@[k], id_to_type@) by {
                if k < pre.len() {
                    assert(edges@[k] == pre[k]);
                    assert(drone_declared_edge(pd, i as int, pre[k]));
                    let m = choose|m: int|
                        0 <= m < i && m < pd.len() && ((pd[m].id as i32 == pre[k].id1 && ids_i32(
                            pd[m].connected_drone_ids@,
                        ).contains(pre[k].id2)) || (pd[m].id as i32 == pre[k].id2 && ids_i32(
                            pd[m].connected_drone_ids@,
                        ).contains(pre[k].id1)));
                    assert(0 <= m < i as int + 1 && m < pd.len() && ((pd[m].id as i32
                        == edges@[k].id1 && ids_i32(pd[m].connected_drone_ids@).contains(
                        edges@[k].id2,
                    )) || (pd[m].id as i32 == edges@[k].id2 && ids_i32(
                        pd[m].connected_drone_ids@,
                    ).contains(edges@[k].id1))));
                } else {
                    assert((i as int) < pd.len() && ((pd[i as int].id as i32 == edges@[k].id1
                        && ids_i32(pd[i as int].connected_drone_ids@).contains(edges@[k].id2)) || (
                    pd[i as int].id as i32 == edges@[k].id2 && ids_i32(
                        pd[i as int].connected_drone_ids@,
                    ).contains(edges@[k].id1))));
                }
            }
            assert forall|m: int, y: i32|
                0 <= m < i as int + 1 && m < pd.len() && #[trigger] ids_i32(
                    pd[m].connected_drone_ids@,
                ).contains(y) implies spec_has_edge(edges@, pd[m].id as int, y as int) by {
                if m == i as int {
                    assert(spec_has_edge(edges@, self_id as int, y as int));
                }
            }
            assert(drone_pairs_covered(pd, i as int + 1, edges@));
        }
        let not_adjacent = not_adjacent_of(parsed_drones, &adjacent, self_id);
        drones.push(
            DroneStruct {
                id: self_id,
                adjacent,
                not_adjacent,
                pdr: parsed_drones[i].pdr,
                crashed: false,
                position_in_vector: i as i32,
            },
        );
        i = i + 1;
    }

    // Build the client records.
    let mut clients: Vec<ClientServerStruct> = Vec::new();
    let mut i: usize = 0;
    while i < nc
        invariant
            0 <= i <= nc,
            clients@.len() == i,
            id_to_type@ == registry_spec(pd, pc, ps),
            forall|m: int|
                0 <= m < i ==> {
                    let c = #[trigger] clients@[m];
                    &&& c.id == pc[m].id as i32
                    &&& c.position_in_vector == m as i32
                    &&& c.drones_adjacent@ == ids_i32(pc[m].connected_drone_ids@)
                    &&& forall|y: i32|
                        #[trigger] c.drones_not_adjacent@.contains(y) <==> (drone_ids(pd).contains(
                            y,
                        ) && y != c.id && !c.drones_adjacent@.contains(y))
                    &&& client_server_wf(c)
                },
            edges_unique(edges@),
            forall|k: int| 0 <= k < edges@.len() ==> (#[trigger] edges@[k]).id1 < edges@[k].id2,
            forall|k: int|
                0 <= k < edges@.len() ==> (drone_declared_edge(pd, nd as int, #[trigger] edges@[k])
                    || client_declared_edge(pc, i as int, edges@[k])) && edge_fields_ok(
                    edges@[k],
                    id_to_type@,
                ),
            drone_pairs_covered(pd, nd as int, edges@),
            client_pairs_covered(pc, i as int, edges@),
        decreases nc - i,
    {
        let self_id = parsed_clients[i].id as i32;
        let adjacent = widen_ids(&parsed_clients[i].connected_drone_ids);
        proof {
            assert(id_to_type@[self_id as int] == (NodeType::Client, i as int));
            assert(spec_node_type(id_to_type@, self_id as int) == (1int, i as int));
            assert(!ids_i32(pc[i as int].connected_drone_ids@).contains(self_id)) by {
                if ids_i32(pc[i as int].connected_drone_ids@).contains(self_id) {
                    let jj = choose|jj: int|
                        0 <= jj < ids_i32(pc[i as int].connected_drone_ids@).len() && ids_i32(
                            pc[i as int].connected_drone_ids@,
                        )[jj] == self_id;
                    assert(pc[i as int].connected_drone_ids@[jj] == pc[i as int].id);
                    assert(pc[i as int].connected_drone_ids@.contains(pc[i as int].id));
                }
            }
        }
        let ghost pre = edges@;
        add_edges_for(
            edges,
            self_id,
            1,
            i as i32,
            &parsed_clients[i].connected_drone_ids,
            id_to_type,
        );
        proof {
            lemma_covered_extend(pd, pc, ps, nd as int, i as int, 0, pre, edges@);
            assert forall|k: int| 0 <= k < edges@.len() implies (drone_declared_edge(
                pd,
                nd as int,
                #[trigger] edges@[k],
            ) || client_declared_edge(pc, i as int + 1, edges@[k])) && edge_fields_ok(
                edges@[k],
                id_to_type@,
            ) by {
                if k < pre.len() {
                    assert(edges@[k] == pre[k]);
                    if client_declared_edge(pc, i as int, pre[k]) {
                        let m = choose|m: int|
                            0 <= m < i && m < pc.len() && ((pc[m].id as i32 == pre[k].id1
                                && ids_i32(pc[m].connected_drone_ids@).contains(pre[k].id2)) || (
                            pc[m].id as i32 == pre[k].id2 && ids_i32(
                                pc[m].connected_drone_ids@,
                            ).contains(pre[k].id1)));
                        assert(0 <= m < i as int + 1 && m < pc.len() && ((pc[m].id as i32
                            == edges@[k].id1 && ids_i32(pc[m].connected_drone_ids@).contains(
                            edges@[k].id2,
                        )) || (pc[m].id as i32 == edges@[k].id2 && ids_i32(
                            pc[m].connected_drone_ids@,
                        ).contains(edges@[k].id1))));
                    }
                } else {
                    assert((i as int) < pc.len() && ((pc[i as int].id as i32 == edges@[k].id1
                        && ids_i32(pc[i as int].connected_drone_ids@).contains(edges@[k].id2)) || (
                    pc[i as int].id as i32 == edges@[k].id2 && ids_i32(
                        pc[i as int].connected_drone_ids@,
                    ).contains(edges@[k].id1))));
                }
            }
            assert forall|m: int, y: i32|
                0 <= m < i as int + 1 && m < pc.len() && #[trigger] ids_i32(
                    pc[m].connected_drone_ids@,
                ).contains(y) implies spec_has_edge(edges@, pc[m].id as int, y as int) by {
                if m == i as int {
                    assert(spec_has_edge(edges@, self_id as int, y as int));
                }
            }
            assert(client_pairs_covered(pc, i as int + 1, edges@));
        }
        let not_adjacent = not_adjacent_of(parsed_drones, &adjacent, self_id);
        clients.push(
            ClientServerStruct {
                id: self_id,
                drones_adjacent: adjacent,
                drones_not_adjacent: not_adjacent,
                position_in_vector: i as i32,
            },
        );
        i = i + 1;
    }

    // Build the server records.
    let mut servers: Vec<ClientServerStruct> = Vec::new();
    let mut i: usize = 0;
    while i < ns
        invariant
            0 <= i <= ns,
            servers@.len() == i,
            id_to_type@ == registry_spec(pd, pc, ps),
            forall|m: int|
                0 <= m < i ==> {
                    let c = #[trigger] servers@[m];
                    &&& c.id == ps[m].id as i32
                    &&& c.position_in_vector == m as i32
                    &&& c.drones_adjacent@ == ids_i32(ps[m].connected_drone_ids@)
                    &&& forall|y: i32|
                        #[trigger] c.drones_not_adjacent@.contains(y) <==> (drone_ids(pd).contains(
                            y,
                        ) && y != c.id && !c.drones_adjacent@.contains(y))
                    &&& client_server_wf(c)
                },
            edges_unique(edges@),
            forall|k: int| 0 <= k < edges@.len() ==> (#[trigger] edges@[k]).id1 < edges@[k].id2,
            forall|k: int|
                0 <= k < edges@.len() ==> (drone_declared_edge(pd, nd as int, #[trigger] edges@[k])
                    || client_declared_edge(pc, nc as int, edges@[k]) || server_declared_edge(
                    ps,
                    i as int,
                    edges@[k],
                )) && edge_fields_ok(edges@[k], id_to_type@),
            drone_pairs_covered(pd, nd as int, edges@),
            client_pairs_covered(pc, nc as int, edges@),
            server_pairs_covered(ps, i as int, edges@),
        decreases ns - i,
    {
        let self_id = parsed_servers[i].id as i32;
        let adjacent = widen_ids(&parsed_servers[i].connected_drone_ids);
        proof {
            assert(id_to_type@[self_id as int] == (NodeType::Server, i as int));
            assert(spec_node_type(id_to_type@, self_id as int) == (2int, i as int));
            assert(!ids_i32(ps[i as int].connected_drone_ids@).contains(self_id)) by {
                if ids_i32(ps[i as int].connected_drone_ids@).contains(self_id) {
                    let jj = choose|jj: int|
                        0 <= jj < ids_i32(ps[i as int].connected_drone_ids@).len() && ids_i32(
                            ps[i as int].connected_drone_ids@,
                        )[jj] == self_id;
                    assert(ps[i as int].connected_drone_ids@[jj] == ps[i as int].id);
                    assert(ps[i as int].connected_drone_ids@.contains(ps[i as int].id));
                }
            }
        }
        let ghost pre = edges@;
        add_edges_for(
            edges,
            self_id,
            2,
            i as i32,
            &parsed_servers[i].connected_drone_ids,
            id_to_type,
        );
        proof {
            lemma_covered_extend(pd, pc, ps, nd as int, nc as int, i as int, pre, edges@);
            assert forall|k: int| 0 <= k < edges@.len() implies (drone_declared_edge(
                pd,
                nd as int,
                #[trigger] edges@[k],
            ) || client_declared_edge(pc, nc as int, edges@[k]) || server_declared_edge(
                ps,
                i as int + 1,
                edges@[k],
            )) && edge_fields_ok(edges@[k], id_to_type@) by {
                if k < pre.len() {
                    assert(edges@[k] == pre[k]);
                    if server_declared_edge(ps, i as int, pre[k]) {
                        let m = choose|m: int|
                            0 <= m < i && m < ps.len() && ((ps[m].id as i32 == pre[k].id1
                                && ids_i32(ps[m].connected_drone_ids@).contains(pre[k].id2)) || (
                            ps[m].id as i32 == pre[k].id2 && ids_i32(
                                ps[m].connected_drone_ids@,
                            ).contains(pre[k].id1)));
                        assert(0 <= m < i as int + 1 && m < ps.len() && ((ps[m].id as i32
                            == edges@[k].id1 && ids_i32(ps[m].connected_drone_ids@).contains(
                            edges@[k].id2,
                        )) || (ps[m].id as i32 == edges@[k].id2 && ids_i32(
                            ps[m].connected_drone_ids@,
                        ).contains(edges@[k].id1))));
                    }
                } else {
                    assert((i as int) < ps.len() && ((ps[i as int].id as i32 == edges@[k].id1
                        && ids_i32(ps[i as int].connected_drone_ids@).contains(edges@[k].id2)) || (
                    ps[i as int].id as i32 == edges@[k].id2 && ids_i32(
                        ps[i as int].connected_drone_ids@,
                    ).contains(edges@[k].id1))));
                }
            }
            assert forall|m: int, y: i32|
                0 <= m < i as int + 1 && m < ps.len() && #[trigger] ids_i32(
                    ps[m].connected_drone_ids@,
                ).contains(y) implies spec_has_edge(edges@, ps[m].id as int, y as int) by {
                if m == i as int {
                    assert(spec_has_edge(edges@, self_id as int, y as int));
                }
            }
            assert(server_pairs_covered(ps, i as int + 1, edges@));
        }
        let not_adjacent = not_adjacent_of(parsed_drones, &adjacent, self_id);
        servers.push(
            ClientServerStruct {
                id: self_id,
                drones_adjacent: adjacent,
                drones_not_adjacent: not_adjacent,
                position_in_vector: i as i32,
            },
        );
        i = i + 1;
    }

    proof {
        assert forall|k: int| 0 <= k < edges@.len() implies edge_declared(
            pd,
            pc,
            ps,
            #[trigger] edges@[k],
        ) by {
            if drone_declared_edge(pd, nd as int, edges@[k]) {
                let m = choose|m: int|
                    0 <= m < nd && m < pd.len() && ((pd[m].id as i32 == edges@[k].id1 && ids_i32(
                        pd[m].connected_drone_ids@,
                    ).contains(edges@[k].id2)) || (pd[m].id as i32 == edges@[k].id2 && ids_i32(
                        pd[m].connected_drone_ids@,
                    ).contains(edges@[k].id1)));
                if pd[m].id as i32 == edges@[k].id1 && ids_i32(
                    pd[m].connected_drone_ids@,
                ).contains(edges@[k].id2) {
                    assert(declares(pd, pc, ps, edges@[k].id1, edges@[k].id2));
                } else {
                    assert(declares(pd, pc, ps, edges@[k].id2, edges@[k].id1));
                }
            } else if client_declared_edge(pc, nc as int, edges@[k]) {
                let m = choose|m: int|
                    0 <= m < nc && m < pc.len() && ((pc[m].id as i32 == edges@[k].id1 && ids_i32(
                        pc[m].connected_drone_ids@,
                    ).contains(edges@[k].id2)) || (pc[m].id as i32 == edges@[k].id2 && ids_i32(
                        pc[m].connected_drone_ids@,
                    ).contains(edges@[k].id1)));
                if pc[m].id as i32 == edges@[k].id1 && ids_i32(
                    pc[m].connected_drone_ids@,
                ).contains(edges@[k].id2) {
                    assert(declares(pd, pc, ps, edges@[k].id1, edges@[k].id2));
                } else {
                    assert(declares(pd, pc, ps, edges@[k].id2, edges@[k].id1));
                }
            } else {
                let m = choose|m: int|
                    0 <= m < ns && m < ps.len() && ((ps[m].id as i32 == edges@[k].id1 && ids_i32(
                        ps[m].connected_drone_ids@,
                    ).contains(edges@[k].id2)) || (ps[m].id as i32 == edges@[k].id2 && ids_i32(
                        ps[m].connected_drone_ids@,
                    ).contains(edges@[k].id1)));
                if ps[m].id as i32 == edges@[k].id1 && ids_i32(
                    ps[m].connected_drone_ids@,
                ).contains(edges@[k].id2) {
                    assert(declares(pd, pc, ps, edges@[k].id1, edges@[k].id2));
                } else {
                    assert(declares(pd, pc, ps, edges@[k].id2, edges@[k].id1));
                }
            }
        }
        assert forall|a: i32, b: i32| #[trigger] declares(pd, pc, ps, a, b) implies spec_has_edge(
            edges@,
            a as int,
            b as int,
        ) by {
            if exists|m: int|
                0 <= m < pd.len() && pd[m].id as i32 == a && ids_i32(
                    pd[m].connected_drone_ids@,
                ).contains(b) {
                let m = choose|m: int|
                    0 <= m < pd.len() && pd[m].id as i32 == a && ids_i32(
                        pd[m].connected_drone_ids@,
                    ).contains(b);
                assert(spec_has_edge(edges@, pd[m].id as int, b as int));
            } else if exists|m: int|
                0 <= m < pc.len() && pc[m].id as i32 == a && ids_i32(
                    pc[m].connected_drone_ids@,
                ).contains(b) {
                let m = choose|m: int|
                    0 <= m < pc.len() && pc[m].id as i32 == a && ids_i32(
                        pc[m].connected_drone_ids@,
                    ).contains(b);
                assert(spec_has_edge(edges@, pc[m].id as int, b as int));
            } else {
                let m = choose|m: int|
                    0 <= m < ps.len() && ps[m].id as i32 == a && ids_i32(
                        ps[m].connected_drone_ids@,
                    ).contains(b);
                assert(spec_has_edge(edges@, ps[m].id as int, b as int));
            }
        }
    }
    (drones, clients, servers)
}


/// A symmetric configuration: every declared link is also declared by its
/// other side.
pub open spec fn config_symmetric(
    pd: Seq<ParsedDrone>,
    pc: Seq<ParsedClient>,
    ps: Seq<ParsedServer>,
) -> bool {
    forall|a: i32, b: i32| #[trigger] declares(pd, pc, ps, a, b) ==> declares(pd, pc, ps, b, a)
}

/// Whether every node record with id `a` lists `b` in its adjacent list
/// and not in its not-adjacent list.
pub open spec fn lists_adjacent(
    drones: Seq<DroneStruct>,
    clients: Seq<ClientServerStruct>,
    servers: Seq<ClientServerStruct>,
    a: i32,
    b: i32,
) -> bool {
    &&& forall|i: int|
        0 <= i < drones.len() && (#[trigger] drones[i]).id == a ==> drones[i].adjacent@.contains(b)
            && !drones[i].not_adjacent@.contains(b)
    &&& forall|i: int|
        0 <= i < clients.len() && (#[trigger] clients[i]).id == a
            ==> clients[i].drones_adjacent@.contains(b)
            && !clients[i].drones_not_adjacent@.contains(b)
    &&& forall|i: int|
        0 <= i < servers.len() && (#[trigger] servers[i]).id == a
            ==> servers[i].drones_adjacent@.contains(b)
            && !servers[i].drones_not_adjacent@.contains(b)
}

/// In a freshly built model, a declared link (a, b) is reflected in the
/// records of every node with id `a`: `b` stands in its adjacent list and
/// not in its not-adjacent list.
proof fn lemma_declares_listed(
    pd: Seq<ParsedDrone>,
    pc: Seq<ParsedClient>,
    ps: Seq<ParsedServer>,
    drones: Seq<DroneStruct>,
    clients: Seq<ClientServerStruct>,
    servers: Seq<ClientServerStruct>,
    a: i32,
    b: i32,
)
    requires
        config_wf(pd, pc, ps),
        built_drones(pd, drones),
        built_clients(pc, clients, pd),
        built_servers(ps, servers, pd),
        declares(pd, pc, ps, a, b),
    ensures
        lists_adjacent(drones, clients, servers, a, b),
{
    lemma_config_ids_unique(pd, pc, ps);
    assert forall|i: int|
        0 <= i < drones.len() && (#[trigger] drones[i]).id == a implies drones[
        i].adjacent@.contains(b) && !drones[i].not_adjacent@.contains(b) by {
        assert(drones[i].id == pd[i].id as i32);
        if exists|m: int|
            0 <= m < pd.len() && pd[m].id as i32 == a && ids_i32(
                pd[m].connected_drone_ids@,
            ).contains(b) {
            let m = choose|m: int|
                0 <= m < pd.len() && pd[m].id as i32 == a && ids_i32(
                    pd[m].connected_drone_ids@,
                ).contains(b);
            assert(pd[m].id == pd[i].id);
            assert(m == i);
            assert(drones[i].adjacent@.contains(b));
        } else if exists|m: int|
            0 <= m < pc.len() && pc[m].id as i32 == a && ids_i32(
                pc[m].connected_drone_ids@,
            ).contains(b) {
            let m = choose|m: int|
                0 <= m < pc.len() && pc[m].id as i32 == a && ids_i32(
                    pc[m].connected_drone_ids@,
                ).contains(b);
            assert(pd[i].id != pc[m].id);
            assert(false);
        } else {
            let m = choose|m: int|
                0 <= m < ps.len() && ps[m].id as i32 == a && ids_i32(
                    ps[m].connected_drone_ids@,
                ).contains(b);
            assert(pd[i].id != ps[m].id);
            assert(false);
        }
    }
    assert forall|i: int|
        0 <= i < clients.len() && (#[trigger] clients[i]).id == a implies clients[
        i].drones_adjacent@.contains(b) && !clients[i].drones_not_adjacent@.contains(b) by {
        assert(clients[i].id == pc[i].id as i32);
        if exists|m: int|
            0 <= m < pc.len() && pc[m].id as i32 == a && ids_i32(
                pc[m].connected_drone_ids@,
            ).contains(b) {
            let m = choose|m: int|
                0 <= m < pc.len() && pc[m].id as i32 == a && ids_i32(
                    pc[m].connected_drone_ids@,
                ).contains(b);
            assert(pc[m].id == pc[i].id);
            assert(m == i);
            assert(clients[i].drones_adjacent@.contains(b));
        } else if exists|m: int|
            0 <= m < pd.len() && pd[m].id as i32 == a && ids_i32(
                pd[m].connected_drone_ids@,
            ).contains(b) {
            let m = choose|m: int|
                0 <= m < pd.len() && pd[m].id as i32 == a && ids_i32(
                    pd[m].connected_drone_ids@,
                ).contains(b);
            assert(pd[m].id != pc[i].id);
            assert(false);
        } else {
            let m = choose|m: int|
                0 <= m < ps.len() && ps[m].id as i32 == a && ids_i32(
                    ps[m].connected_drone_ids@,
                ).contains(b);
            assert(pc[i].id != ps[m].id);
            assert(false);
        }
    }
    assert forall|i: int|
        0 <= i < servers.len() && (#[trigger] servers[i]).id == a implies servers[
        i].drones_adjacent@.contains(b) && !servers[i].drones_not_adjacent@.contains(b) by {
        assert(servers[i].id == ps[i].id as i32);
        if exists|m: int|
            0 <= m < ps.len() && ps[m].id as i32 == a && ids_i32(
                ps[m].connected_drone_ids@,
            ).contains(b) {
            let m = choose|m: int|
                0 <= m < ps.len() && ps[m].id as i32 == a && ids_i32(
                    ps[m].connected_drone_ids@,
                ).contains(b);
            assert(ps[m].id == ps[i].id);
            assert(m == i);
            assert(servers[i].drones_adjacent@.contains(b));
        } else if exists|m: int|
            0 <= m < pd.len() && pd[m].id as i32 == a && ids_i32(
                pd[m].connected_drone_ids@,
            ).contains(b) {
            let m = choose|m: int|
                0 <= m < pd.len() && pd[m].id as i32 == a && ids_i32(
                    pd[m].connected_drone_ids@,
                ).contains(b);
            assert(pd[m].id != ps[i].id);
            assert(false);
        } else {
            let m = choose|m: int|
                0 <= m < pc.len() && pc[m].id as i32 == a && ids_i32(
                    pc[m].connected_drone_ids@,
                ).contains(b);
            assert(pc[m].id != ps[i].id);
            assert(false);
        }
    }
}

/// Law: in a freshly built model of a valid, symmetric configuration, both
/// endpoints of every edge hold the other endpoint in their adjacent list,
/// and neither holds it in its not-adjacent list.
pub proof fn lemma_build_edges_adjacent(
    pd: Seq<ParsedDrone>,
    pc: Seq<ParsedClient>,
    ps: Seq<ParsedServer>,
    drones: Seq<DroneStruct>,
    clients: Seq<ClientServerStruct>,
    servers: Seq<ClientServerStruct>,
    edges: Seq<EdgeStruct>,
)
    requires
        config_wf(pd, pc, ps),
        config_symmetric(pd, pc, ps),
        built_drones(pd, drones),
        built_clients(pc, clients, pd),
        built_servers(ps, servers, pd),
        built_edges(pd, pc, ps, edges),
    ensures
        forall|k: int|
            0 <= k < edges.len() ==> lists_adjacent(
                drones,
                clients,
                servers,
                (#[trigger] edges[k]).id1,
                edges[k].id2,
            ) && lists_adjacent(drones, clients, servers, edges[k].id2, edges[k].id1),
{
    assert forall|k: int| 0 <= k < edges.len() implies lists_adjacent(
        drones,
        clients,
        servers,
        (#[trigger] edges[k]).id1,
        edges[k].id2,
    ) && lists_adjacent(drones, clients, servers, edges[k].id2, edges[k].id1) by {
        assert(edge_declared(pd, pc, ps, edges[k]));
        lemma_declares_listed(pd, pc, ps, drones, clients, servers, edges[k].id1, edges[k].id2);
        assert(declares(pd, pc, ps, edges[k].id2, edges[k].id1));
        lemma_declares_listed(pd, pc, ps, drones, clients, servers, edges[k].id2, edges[k].id1);
    }
}

} // verus!
