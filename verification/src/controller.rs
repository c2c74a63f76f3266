//! The controller facade: the authoritative observer-facing state, and the
//! operator intents that mutate it in lock-step with best-effort command
//! dispatch. All mutating operations go through this one owner, so callers
//! never juggle the registry, the graph and the channel maps separately.

use vstd::prelude::*;

use crate::command::Command;
use crate::command::SendRecord;
use crate::dispatcher::send_drone_command;
use crate::dispatcher::valid_send_result;
use crate::dispatcher::ChannelMap;
use crate::dispatcher::ChannelSet;
use crate::graph::check_edges;
use crate::graph::client_server_wf;
use crate::graph::contains_id;
use crate::graph::drone_wf;
use crate::graph::edge_matches;
use crate::graph::edges_unique;
use crate::graph::lemma_push_to_set;
use crate::graph::no_dup;
use crate::graph::remove_edge_pair;
use crate::graph::remove_edges_touching;
use crate::graph::remove_id;
use crate::graph::spec_has_edge;
use crate::graph::ClientServerStruct;
use crate::graph::DroneStruct;
use crate::graph::EdgeStruct;
use crate::populate::built_clients;
use crate::populate::built_drones;
use crate::populate::built_edges;
use crate::populate::built_servers;
use crate::populate::config_wf;
use crate::populate::populate_all;
use crate::populate::registry_spec;
use crate::populate::ParsedClient;
use crate::populate::ParsedDrone;
use crate::populate::ParsedServer;
use crate::registry::get_node_type;
use crate::registry::spec_node_type;
use crate::registry::NodeType;
use crate::registry::Registry;

verus! {

/// A new configuration could not be installed. The running topology is
/// left untouched in either case.
#[derive(Clone, Copy, PartialEq, Eq, Structural, Debug)]
pub enum ConfigLoadError {
    /// The configuration source could not be read or parsed.
    LoadFailed,
    /// The parsed configuration breaks the id or neighbor-list rules.
    InvalidConfig,
}

/// Everything a freshly loaded configuration brings: the parsed nodes and
/// the two channel collections the new engine handed out.
pub struct NewTopology {
    pub drones: Vec<ParsedDrone>,
    pub clients: Vec<ParsedClient>,
    pub servers: Vec<ParsedServer>,
    pub senders: ChannelMap,
    pub channels: ChannelSet,
}

/// The whole control-plane state: registry, topology graph, and the two
/// channel collections.
pub struct SimulationController {
    pub id_to_type: Registry,
    pub edges: Vec<EdgeStruct>,
    pub drones: Vec<DroneStruct>,
    pub clients: Vec<ClientServerStruct>,
    pub servers: Vec<ClientServerStruct>,
    pub senders: Option<ChannelMap>,
    pub channels: Option<ChannelSet>,
}

impl SimulationController {
    /// Well-formedness, kept by every operator intent: at most one edge
    /// per unordered pair, every node's two neighbor lists disjoint and
    /// free of repetitions, and every node id within the 8-bit id space.
    pub open spec fn wf(self) -> bool {
        &&& edges_unique(self.edges@)
        &&& forall|i: int|
            0 <= i < self.drones@.len() ==> drone_wf(#[trigger] self.drones@[i]) && 0
                <= self.drones@[i].id <= 255
        &&& forall|i: int|
            0 <= i < self.clients@.len() ==> client_server_wf(#[trigger] self.clients@[i]) && 0
                <= self.clients@[i].id <= 255
        &&& forall|i: int|
            0 <= i < self.servers@.len() ==> client_server_wf(#[trigger] self.servers@[i]) && 0
                <= self.servers@[i].id <= 255
    }
}

/// The effect of an added link (a, b) on one drone record: `b` joins `a`'s
/// adjacent set and leaves its not-adjacent set, symmetrically for `b`,
/// and every other record — and every other field — is untouched.
pub open spec fn drone_add_effect(d0: DroneStruct, d1: DroneStruct, a: i32, b: i32) -> bool {
    &&& d1.id == d0.id
    &&& d1.pdr == d0.pdr
    &&& d1.crashed == d0.crashed
    &&& d1.position_in_vector == d0.position_in_vector
    &&& if d0.id == a {
        d1.adjacent@.to_set() == d0.adjacent@.to_set().insert(b) && d1.not_adjacent@.to_set()
            == d0.not_adjacent@.to_set().remove(b)
    } else if d0.id == b {
        d1.adjacent@.to_set() == d0.adjacent@.to_set().insert(a) && d1.not_adjacent@.to_set()
            == d0.not_adjacent@.to_set().remove(a)
    } else {
        d1.adjacent@ == d0.adjacent@ && d1.not_adjacent@ == d0.not_adjacent@
    }
}

/// The effect of a removed link (a, b) on one drone record: where `b` was
/// adjacent to `a` it moves to the not-adjacent set, symmetrically for
/// `b`; a record not party to the link is untouched.
pub open spec fn drone_remove_effect(d0: DroneStruct, d1: DroneStruct, a: i32, b: i32) -> bool {
    &&& d1.id == d0.id
    &&& d1.pdr == d0.pdr
    &&& d1.crashed == d0.crashed
    &&& d1.position_in_vector == d0.position_in_vector
    &&& if d0.id == a {
        if d0.adjacent@.contains(b) {
            d1.adjacent@.to_set() == d0.adjacent@.to_set().remove(b) && d1.not_adjacent@.to_set()
                == d0.not_adjacent@.to_set().insert(b)
        } else {
            d1.adjacent@ == d0.adjacent@ && d1.not_adjacent@ == d0.not_adjacent@
        }
    } else if d0.id == b {
        if d0.adjacent@.contains(a) {
            d1.adjacent@.to_set() == d0.adjacent@.to_set().remove(a) && d1.not_adjacent@.to_set()
                == d0.not_adjacent@.to_set().insert(a)
        } else {
            d1.adjacent@ == d0.adjacent@ && d1.not_adjacent@ == d0.not_adjacent@
        }
    } else {
        d1.adjacent@ == d0.adjacent@ && d1.not_adjacent@ == d0.not_adjacent@
    }
}

/// Whether each record of `post` is the corresponding record of `pre`
/// after the added link (a, b).
pub open spec fn drones_add_adj(
    pre: Seq<DroneStruct>,
    post: Seq<DroneStruct>,
    a: i32,
    b: i32,
) -> bool {
    &&& post.len() == pre.len()
    &&& forall|m: int|
        0 <= m < pre.len() ==> drone_add_effect(#[trigger] pre[m], post[m], a, b)
}

/// Whether each record of `post` is the corresponding record of `pre`
/// after the removed link (a, b).
pub open spec fn drones_remove_adj(
    pre: Seq<DroneStruct>,
    post: Seq<DroneStruct>,
    a: i32,
    b: i32,
) -> bool {
    &&& post.len() == pre.len()
    &&& forall|m: int|
        0 <= m < pre.len() ==> drone_remove_effect(#[trigger] pre[m], post[m], a, b)
}

/// Whether the records in `records` carry out `plan` in order, each with
/// an outcome the dispatcher may report against the channel map `senders`.
pub open spec fn records_match(
    records: Seq<SendRecord>,
    plan: Seq<(u8, Command)>,
    senders: Option<ChannelMap>,
) -> bool {
    &&& records.len() == plan.len()
    &&& forall|k: int|
        0 <= k < plan.len() ==> {
            let rec = #[trigger] records[k];
            &&& rec.target == plan[k].0
            &&& rec.command == plan[k].1
            &&& valid_send_result(senders, plan[k].0, rec.result)
        }
}

/// Borrow one element of a vector mutably.
fn vec_index_mut<T>(v: &mut Vec<T>, i: usize) -> (element: &mut T)
    requires
        i < old(v)@.len(),
    ensures
        *element == old(v)@[i as int],
        final(v)@ == old(v)@.update(i as int, *final(element)),
{
    &mut v[i]
}

impl SimulationController {
    /// Change one drone's synthetic failure probability: hand the new
    /// rate to the node, touching no state of the controller itself. The
    /// record fixes what was dispatched — the target and the rate — and
    /// carries the best-effort outcome.
    pub fn on_change_pdr(&self, id: u8, new_pdr: u32) -> (rec: SendRecord)
        ensures
            rec.target == id,
            rec.command == Command::SetDropRate(new_pdr),
            valid_send_result(self.senders, id, rec.result),
    {
        let result = send_drone_command(&self.senders, id, Command::SetDropRate(new_pdr));
        SendRecord { target: id, command: Command::SetDropRate(new_pdr), result }
    }

    /// Remove the link between two drones: command each side to drop its
    /// channel to the other, remove the pair's edge, and move each id from
    /// the other's adjacent list to its not-adjacent list.
    pub fn on_remove_edge(&mut self, id_1: u8, id_2: u8) -> (records: Vec<SendRecord>)
        requires
            old(self).wf(),
            id_1 != id_2,
        ensures
            final(self).wf(),
            final(self).id_to_type == old(self).id_to_type,
            final(self).clients == old(self).clients,
            final(self).servers == old(self).servers,
            final(self).senders == old(self).senders,
            final(self).channels == old(self).channels,
            records_match(
                records@,
                seq![
                    (id_1, Command::RemoveSender(id_2)),
                    (id_2, Command::RemoveSender(id_1)),
                ],
                old(self).senders,
            ),
            !spec_has_edge(old(self).edges@, id_1 as int, id_2 as int) ==> final(self).edges@
                == old(self).edges@,
            spec_has_edge(old(self).edges@, id_1 as int, id_2 as int) ==> exists|k: int|
                0 <= k < old(self).edges@.len() && edge_matches(
                    old(self).edges@[k],
                    id_1 as int,
                    id_2 as int,
                ) && final(self).edges@ == old(self).edges@.remove(k),
            !spec_has_edge(final(self).edges@, id_1 as int, id_2 as int),
            drones_remove_adj(old(self).drones@, final(self).drones@, id_1 as i32, id_2 as i32),
    {
        let mut records: Vec<SendRecord> = Vec::new();
        let result = send_drone_command(&self.senders, id_1, Command::RemoveSender(id_2));
        records.push(SendRecord { target: id_1, command: Command::RemoveSender(id_2), result });
        let result = send_drone_command(&self.senders, id_2, Command::RemoveSender(id_1));
        records.push(SendRecord { target: id_2, command: Command::RemoveSender(id_1), result });

        remove_edge_pair(&mut self.edges, id_1 as i32, id_2 as i32);
        self.remove_adjacency_drones(id_1 as i32, id_2 as i32);
        records
    }

    /// Move `b` out of `a`'s adjacent list into its not-adjacent list, and
    /// symmetrically, across all drone records.
    fn remove_adjacency_drones(&mut self, a: i32, b: i32)
        requires
            old(self).wf(),
            a != b,
        ensures
            final(self).wf(),
            final(self).id_to_type == old(self).id_to_type,
            final(self).edges == old(self).edges,
            final(self).clients == old(self).clients,
            final(self).servers == old(self).servers,
            final(self).senders == old(self).senders,
            final(self).channels == old(self).channels,
            drones_remove_adj(old(self).drones@, final(self).drones@, a, b),
    {
        let n = self.drones.len();
        let mut m: usize = 0;
        while m < n
            invariant
                old(self).wf(),
                a != b,
                n == self.drones@.len(),
                self.drones@.len() == old(self).drones@.len(),
                0 <= m <= n,
                self.id_to_type == old(self).id_to_type,
                self.edges == old(self).edges,
                self.clients == old(self).clients,
                self.servers == old(self).servers,
                self.senders == old(self).senders,
                self.channels == old(self).channels,
                forall|j: int|
                    0 <= j < m ==> drone_remove_effect(
                        #[trigger] old(self).drones@[j],
                        self.drones@[j],
                        a,
                        b,
                    ),
                forall|j: int|
                    0 <= j < m ==> drone_wf(#[trigger] self.drones@[j]) && 0 <= self.drones@[j].id
                        <= 255,
                forall|j: int| m <= j < n ==> self.drones@[j] == old(self).drones@[j],
            decreases n - m,
        {
            let d_id = self.drones[m].id;
            let ghost d0 = self.drones@[m as int];
            if d_id == a || d_id == b {
                let other = if d_id == a {
                    b
                } else {
                    a
                };
                let d = vec_index_mut(&mut self.drones, m);
                let was_adjacent = remove_id(&mut d.adjacent, other);
                if was_adjacent {
                    let ghost nadj0 = d.not_adjacent@;
                    d.not_adjacent.push(other);
                    proof {
                        assert(d0.adjacent@.contains(other));
                        assert(!nadj0.contains(other));
                        lemma_push_to_set(nadj0, other);
                        assert forall|y: i32|
                            !(d.adjacent@.contains(y) && #[trigger] d.not_adjacent@.contains(
                                y,
                            )) by {
                            if d.not_adjacent@.contains(y) {
                                assert(d.not_adjacent@.to_set().contains(y));
                                assert(nadj0.to_set().insert(other).contains(y));
                                if y == other {
                                    assert(!d.adjacent@.contains(y));
                                } else {
                                    assert(nadj0.contains(y));
                                    assert(!d0.adjacent@.contains(y));
                                }
                            }
                        }
                    }
                }
            }
            proof {
                assert forall|j: int| 0 <= j < m as int + 1 implies drone_remove_effect(
                    #[trigger] old(self).drones@[j],
                    self.drones@[j],
                    a,
                    b,
                ) by {
                    if j == m as int {
                        assert(old(self).drones@[j] == d0);
                    }
                }
                assert forall|j: int| 0 <= j < m as int + 1 implies drone_wf(
                    #[trigger] self.drones@[j],
                ) && 0 <= self.drones@[j].id <= 255 by {
                    if j == m as int {
                        assert(old(self).drones@[j] == d0);
                        assert(drone_remove_effect(d0, self.drones@[j], a, b));
                    }
                }
            }
            m = m + 1;
        }
    }
}


/// The edge an add-link intent between two drones appends: endpoints in
/// canonical order, drone kind codes, positions from the registry.
pub open spec fn added_drone_edge(reg: Map<int, (NodeType, int)>, a: i32, b: i32) -> EdgeStruct {
    let ia = spec_node_type(reg, a as int).1 as i32;
    let ib = spec_node_type(reg, b as int).1 as i32;
    if a < b {
        EdgeStruct { id1: a, id2: b, node_type1: 0, node_type2: 0, index1: ia, index2: ib }
    } else {
        EdgeStruct { id1: b, id2: a, node_type1: 0, node_type2: 0, index1: ib, index2: ia }
    }
}

/// The commands an add-link intent issues: one AddSender to each side,
/// each only when the peer's data channel is held, and none without a
/// channel set.
pub open spec fn add_edge_plan(channels: Option<ChannelSet>, id_1: u8, id_2: u8) -> Seq<
    (u8, Command),
> {
    match channels {
        Option::None => Seq::empty(),
        Option::Some(cs) => (if cs@.contains(id_2) {
            seq![(id_1, Command::AddSender(id_2))]
        } else {
            Seq::empty()
        }) + (if cs@.contains(id_1) {
            seq![(id_2, Command::AddSender(id_1))]
        } else {
            Seq::empty()
        }),
    }
}

impl SimulationController {
    /// Add a link between two drones: wire each side's outgoing channel to
    /// the other where the peer's data channel is held, and — unless the
    /// pair is already connected — append the edge and move each id from
    /// the other's not-adjacent list to its adjacent list. A duplicate add
    /// leaves the graph untouched but still issues the commands.
    pub fn on_add_edge(&mut self, id_1: u8, id_2: u8) -> (records: Vec<SendRecord>)
        requires
            old(self).wf(),
            id_1 != id_2,
        ensures
            final(self).wf(),
            final(self).id_to_type == old(self).id_to_type,
            final(self).clients == old(self).clients,
            final(self).servers == old(self).servers,
            final(self).senders == old(self).senders,
            final(self).channels == old(self).channels,
            records_match(
                records@,
                add_edge_plan(old(self).channels, id_1, id_2),
                old(self).senders,
            ),
            spec_has_edge(old(self).edges@, id_1 as int, id_2 as int) ==> final(self).edges@
                == old(self).edges@ && final(self).drones == old(self).drones,
            !spec_has_edge(old(self).edges@, id_1 as int, id_2 as int) ==> final(self).edges@
                == old(self).edges@.push(
                added_drone_edge(old(self).id_to_type@, id_1 as i32, id_2 as i32),
            ) && drones_add_adj(old(self).drones@, final(self).drones@, id_1 as i32, id_2 as i32),
            spec_has_edge(final(self).edges@, id_1 as int, id_2 as int),
    {
        let ghost plan = add_edge_plan(self.channels, id_1, id_2);
        let mut records: Vec<SendRecord> = Vec::new();
        let mut have_1: bool = false;
        let mut have_2: bool = false;
        match &self.channels {
            Option::None => {},
            Option::Some(cs) => {
                have_1 = cs.contains(id_1);
                have_2 = cs.contains(id_2);
            },
        }
        if have_2 {
            let result = send_drone_command(&self.senders, id_1, Command::AddSender(id_2));
            records.push(SendRecord { target: id_1, command: Command::AddSender(id_2), result });
        }
        if have_1 {
            let result = send_drone_command(&self.senders, id_2, Command::AddSender(id_1));
            records.push(SendRecord { target: id_2, command: Command::AddSender(id_1), result });
        }
        proof {
            assert(records_match(records@, plan, self.senders)) by {
                if have_2 {
                    assert(plan[0] == (id_1, Command::AddSender(id_2)));
                }
                if have_1 {
                    assert(plan[plan.len() - 1] == (id_2, Command::AddSender(id_1)));
                }
            }
        }

        let a = id_1 as i32;
        let b = id_2 as i32;
        if !check_edges(&self.edges, a, b) {
            let (_, index1) = get_node_type(a, &self.id_to_type);
            let (_, index2) = get_node_type(b, &self.id_to_type);
            let ghost pre = self.edges@;
            let edge = if a < b {
                EdgeStruct { id1: a, id2: b, node_type1: 0, node_type2: 0, index1, index2 }
            } else {
                EdgeStruct { id1: b, id2: a, node_type1: 0, node_type2: 0, index1: index2, index2: index1 }
            };
            self.edges.push(edge);
            proof {
                assert(edge == added_drone_edge(self.id_to_type@, a, b));
                assert(edges_unique(self.edges@)) by {
                    assert forall|k1: int, k2: int|
                        0 <= k1 < k2 < self.edges@.len() implies !edge_matches(
                        self.edges@[k1],
                        self.edges@[k2].id1 as int,
                        self.edges@[k2].id2 as int,
                    ) by {
                        if k2 == self.edges@.len() - 1 {
                            assert(!edge_matches(pre[k1], a as int, b as int));
                        }
                    }
                }
                assert(edge_matches(
                    self.edges@[self.edges@.len() - 1],
                    id_1 as int,
                    id_2 as int,
                ));
            }
            self.add_adjacency_drones(a, b);
        } else {
            proof {
                let k = choose|k: int|
                    0 <= k < self.edges@.len() && edge_matches(
                        self.edges@[k],
                        id_1 as int,
                        id_2 as int,
                    );
            }
        }
        records
    }

    /// Move `b` out of `a`'s not-adjacent list into its adjacent list, and
    /// symmetrically, across all drone records.
    fn add_adjacency_drones(&mut self, a: i32, b: i32)
        requires
            old(self).wf(),
            a != b,
        ensures
            final(self).wf(),
            final(self).id_to_type == old(self).id_to_type,
            final(self).edges == old(self).edges,
            final(self).clients == old(self).clients,
            final(self).servers == old(self).servers,
            final(self).senders == old(self).senders,
            final(self).channels == old(self).channels,
            drones_add_adj(old(self).drones@, final(self).drones@, a, b),
    {
        let n = self.drones.len();
        let mut m: usize = 0;
        while m < n
            invariant
                old(self).wf(),
                a != b,
                n == self.drones@.len(),
                self.drones@.len() == old(self).drones@.len(),
                0 <= m <= n,
                self.id_to_type == old(self).id_to_type,
                self.edges == old(self).edges,
                self.clients == old(self).clients,
                self.servers == old(self).servers,
                self.senders == old(self).senders,
                self.channels == old(self).channels,
                forall|j: int|
                    0 <= j < m ==> drone_add_effect(
                        #[trigger] old(self).drones@[j],
                        self.drones@[j],
                        a,
                        b,
                    ),
                forall|j: int|
                    0 <= j < m ==> drone_wf(#[trigger] self.drones@[j]) && 0 <= self.drones@[j].id
                        <= 255,
                forall|j: int| m <= j < n ==> self.drones@[j] == old(self).drones@[j],
            decreases n - m,
        {
            let d_id = self.drones[m].id;
            let ghost d0 = self.drones@[m as int];
            if d_id == a || d_id == b {
                let other = if d_id == a {
                    b
                } else {
                    a
                };
                let d = vec_index_mut(&mut self.drones, m);
                let ghost adj0 = d.adjacent@;
                let ghost nadj0 = d.not_adjacent@;
                if !contains_id(&d.adjacent, other) {
                    d.adjacent.push(other);
                    proof {
                        lemma_push_to_set(adj0, other);
                    }
                } else {
                    proof {
                        assert(d.adjacent@.to_set() =~= adj0.to_set().insert(other));
                    }
                }
                remove_id(&mut d.not_adjacent, other);
                proof {
                    assert forall|y: i32|
                        !(d.adjacent@.contains(y) && #[trigger] d.not_adjacent@.contains(y)) by {
                        if d.not_adjacent@.contains(y) {
                            assert(nadj0.contains(y) && y != other);
                            assert(!adj0.contains(y));
                            if d.adjacent@.contains(y) {
                                assert(d.adjacent@.to_set().contains(y));
                                assert(adj0.to_set().insert(other).contains(y));
                            }
                        }
                    }
                }
            }
            proof {
                assert forall|j: int| 0 <= j < m as int + 1 implies drone_add_effect(
                    #[trigger] old(self).drones@[j],
                    self.drones@[j],
                    a,
                    b,
                ) by {
                    if j == m as int {
                        assert(old(self).drones@[j] == d0);
                    }
                }
                assert forall|j: int| 0 <= j < m as int + 1 implies drone_wf(
                    #[trigger] self.drones@[j],
                ) && 0 <= self.drones@[j].id <= 255 by {
                    if j == m as int {
                        assert(old(self).drones@[j] == d0);
                        assert(drone_add_effect(d0, self.drones@[j], a, b));
                    }
                }
            }
            m = m + 1;
        }
    }
}


/// The effect of an added link on one client or server record: `peer`
/// joins `node`'s adjacent set and leaves its not-adjacent set; any other
/// record is untouched.
pub open spec fn cs_add_effect(c0: ClientServerStruct, c1: ClientServerStruct, node: i32, peer: i32) -> bool {
    &&& c1.id == c0.id
    &&& c1.position_in_vector == c0.position_in_vector
    &&& if c0.id == node {
        c1.drones_adjacent@.to_set() == c0.drones_adjacent@.to_set().insert(peer)
            && c1.drones_not_adjacent@.to_set() == c0.drones_not_adjacent@.to_set().remove(peer)
    } else {
        c1.drones_adjacent@ == c0.drones_adjacent@ && c1.drones_not_adjacent@
            == c0.drones_not_adjacent@
    }
}

/// The effect of a removed link on one client or server record: where
/// `peer` was adjacent to `node` it moves to the not-adjacent set; any
/// other record is untouched.
pub open spec fn cs_remove_effect(c0: ClientServerStruct, c1: ClientServerStruct, node: i32, peer: i32) -> bool {
    &&& c1.id == c0.id
    &&& c1.position_in_vector == c0.position_in_vector
    &&& if c0.id == node {
        if c0.drones_adjacent@.contains(peer) {
            c1.drones_adjacent@.to_set() == c0.drones_adjacent@.to_set().remove(peer)
                && c1.drones_not_adjacent@.to_set() == c0.drones_not_adjacent@.to_set().insert(peer)
        } else {
            c1.drones_adjacent@ == c0.drones_adjacent@ && c1.drones_not_adjacent@
                == c0.drones_not_adjacent@
        }
    } else {
        c1.drones_adjacent@ == c0.drones_adjacent@ && c1.drones_not_adjacent@
            == c0.drones_not_adjacent@
    }
}

/// Whether each record of `post` is the corresponding record of `pre`
/// after the added link (node, peer).
pub open spec fn cs_add_adj(
    pre: Seq<ClientServerStruct>,
    post: Seq<ClientServerStruct>,
    node: i32,
    peer: i32,
) -> bool {
    &&& post.len() == pre.len()
    &&& forall|m: int| 0 <= m < pre.len() ==> cs_add_effect(#[trigger] pre[m], post[m], node, peer)
}

/// Whether each record of `post` is the corresponding record of `pre`
/// after the removed link (node, peer).
pub open spec fn cs_remove_adj(
    pre: Seq<ClientServerStruct>,
    post: Seq<ClientServerStruct>,
    node: i32,
    peer: i32,
) -> bool {
    &&& post.len() == pre.len()
    &&& forall|m: int|
        0 <= m < pre.len() ==> cs_remove_effect(#[trigger] pre[m], post[m], node, peer)
}

/// List-level well-formedness of client or server records.
pub open spec fn cs_list_wf(list: Seq<ClientServerStruct>) -> bool {
    forall|i: int|
        0 <= i < list.len() ==> client_server_wf(#[trigger] list[i]) && 0 <= list[i].id <= 255
}

/// Move `peer` out of `node`'s not-adjacent list into its adjacent list,
/// across one list of client or server records.
fn cs_add_adjacency(list: &mut Vec<ClientServerStruct>, node: i32, peer: i32)
    requires
        cs_list_wf(old(list)@),
        node != peer,
    ensures
        cs_list_wf(final(list)@),
        cs_add_adj(old(list)@, final(list)@, node, peer),
{
    let n = list.len();
    let mut m: usize = 0;
    while m < n
        invariant
            cs_list_wf(old(list)@),
            node != peer,
            n == list@.len(),
            list@.len() == old(list)@.len(),
            0 <= m <= n,
            forall|j: int|
                0 <= j < m ==> cs_add_effect(#[trigger] old(list)@[j], list@[j], node, peer),
            forall|j: int|
                0 <= j < m ==> client_server_wf(#[trigger] list@[j]) && 0 <= list@[j].id <= 255,
            forall|j: int| m <= j < n ==> list@[j] == old(list)@[j],
        decreases n - m,
    {
        let c_id = list[m].id;
        let ghost c0 = list@[m as int];
        if c_id == node {
            let c = vec_index_mut(list, m);
            let ghost adj0 = c.drones_adjacent@;
            let ghost nadj0 = c.drones_not_adjacent@;
            if !contains_id(&c.drones_adjacent, peer) {
                c.drones_adjacent.push(peer);
                proof {
                    lemma_push_to_set(adj0, peer);
                }
            } else {
                proof {
                    assert(c.drones_adjacent@.to_set() =~= adj0.to_set().insert(peer));
                }
            }
            remove_id(&mut c.drones_not_adjacent, peer);
            proof {
                assert forall|y: i32|
                    !(c.drones_adjacent@.contains(y) && #[trigger] c.drones_not_adjacent@.contains(
                        y,
                    )) by {
                    if c.drones_not_adjacent@.contains(y) {
                        assert(nadj0.contains(y) && y != peer);
                        assert(!adj0.contains(y));
                        if c.drones_adjacent@.contains(y) {
                            assert(c.drones_adjacent@.to_set().contains(y));
                            assert(adj0.to_set().insert(peer).contains(y));
                        }
                    }
                }
            }
        }
        proof {
            assert forall|j: int| 0 <= j < m as int + 1 implies cs_add_effect(
                #[trigger] old(list)@[j],
                list@[j],
                node,
                peer,
            ) by {
                if j == m as int {
                    assert(old(list)@[j] == c0);
                }
            }
            assert forall|j: int| 0 <= j < m as int + 1 implies client_server_wf(
                #[trigger] list@[j],
            ) && 0 <= list@[j].id <= 255 by {
                if j == m as int {
                    assert(old(list)@[j] == c0);
                    assert(cs_add_effect(c0, list@[j], node, peer));
                }
            }
        }
        m = m + 1;
    }
}

/// Move `peer` out of `node`'s adjacent list into its not-adjacent list,
/// across one list of client or server records.
fn cs_remove_adjacency(list: &mut Vec<ClientServerStruct>, node: i32, peer: i32)
    requires
        cs_list_wf(old(list)@),
        node != peer,
    ensures
        cs_list_wf(final(list)@),
        cs_remove_adj(old(list)@, final(list)@, node, peer),
{
    let n = list.len();
    let mut m: usize = 0;
    while m < n
        invariant
            cs_list_wf(old(list)@),
            node != peer,
            n == list@.len(),
            list@.len() == old(list)@.len(),
            0 <= m <= n,
            forall|j: int|
                0 <= j < m ==> cs_remove_effect(#[trigger] old(list)@[j], list@[j], node, peer),
            forall|j: int|
                0 <= j < m ==> client_server_wf(#[trigger] list@[j]) && 0 <= list@[j].id <= 255,
            forall|j: int| m <= j < n ==> list@[j] == old(list)@[j],
        decreases n - m,
    {
        let c_id = list[m].id;
        let ghost c0 = list@[m as int];
        if c_id == node {
            let c = vec_index_mut(list, m);
            let ghost nadj0 = c.drones_not_adjacent@;
            let was_adjacent = remove_id(&mut c.drones_adjacent, peer);
            if was_adjacent {
                proof {
                    assert(c0.drones_adjacent@.contains(peer));
                    assert(!nadj0.contains(peer));
                    lemma_push_to_set(nadj0, peer);
                }
                c.drones_not_adjacent.push(peer);
                proof {
                    assert forall|y: i32|
                        !(c.drones_adjacent@.contains(y)
                            && #[trigger] c.drones_not_adjacent@.contains(y)) by {
                        if c.drones_not_adjacent@.contains(y) {
                            assert(c.drones_not_adjacent@.to_set().contains(y));
                            assert(nadj0.to_set().insert(peer).contains(y));
                            if y == peer {
                                assert(!c.drones_adjacent@.contains(y));
                            } else {
                                assert(nadj0.contains(y));
                                assert(!c0.drones_adjacent@.contains(y));
                            }
                        }
                    }
                }
            }
        }
        proof {
            assert forall|j: int| 0 <= j < m as int + 1 implies cs_remove_effect(
                #[trigger] old(list)@[j],
                list@[j],
                node,
                peer,
            ) by {
                if j == m as int {
                    assert(old(list)@[j] == c0);
                }
            }
            assert forall|j: int| 0 <= j < m as int + 1 implies client_server_wf(
                #[trigger] list@[j],
            ) && 0 <= list@[j].id <= 255 by {
                if j == m as int {
                    assert(old(list)@[j] == c0);
                    assert(cs_remove_effect(c0, list@[j], node, peer));
                }
            }
        }
        m = m + 1;
    }
}

/// Which endpoint of an across-kinds link is the client or server: that
/// endpoint with the peer, or nothing when neither endpoint is one.
pub open spec fn cross_target(reg: Map<int, (NodeType, int)>, a: i32, b: i32) -> Option<
    (i32, i32),
> {
    if reg.dom().contains(a as int) && (reg[a as int].0 is Client || reg[a as int].0 is Server) {
        Some((a, b))
    } else if reg.dom().contains(b as int) && (reg[b as int].0 is Client || reg[b as int].0
        is Server) {
        Some((b, a))
    } else {
        None
    }
}

/// The edge an across-kinds add-link intent appends: endpoints in
/// canonical order, kind codes and positions from the registry.
pub open spec fn added_cross_edge(reg: Map<int, (NodeType, int)>, a: i32, b: i32) -> EdgeStruct {
    let ka = spec_node_type(reg, a as int);
    let kb = spec_node_type(reg, b as int);
    if a < b {
        EdgeStruct {
            id1: a,
            id2: b,
            node_type1: ka.0 as i32,
            node_type2: kb.0 as i32,
            index1: ka.1 as i32,
            index2: kb.1 as i32,
        }
    } else {
        EdgeStruct {
            id1: b,
            id2: a,
            node_type1: kb.0 as i32,
            node_type2: ka.0 as i32,
            index1: kb.1 as i32,
            index2: ka.1 as i32,
        }
    }
}

impl SimulationController {
    /// Find which of the pair is a client, looked up in the registry, and
    /// move the peer into its adjacent list.
    fn cross_add_update(&mut self, id_1: u8, id_2: u8)
        requires
            old(self).wf(),
            id_1 != id_2,
        ensures
            final(self).wf(),
            final(self).id_to_type == old(self).id_to_type,
            final(self).edges == old(self).edges,
            final(self).drones == old(self).drones,
            final(self).senders == old(self).senders,
            final(self).channels == old(self).channels,
            match cross_target(old(self).id_to_type@, id_1 as i32, id_2 as i32) {
                Option::None => final(self).clients == old(self).clients && final(self).servers
                    == old(self).servers,
                Option::Some(np) => {
                    if old(self).id_to_type@[np.0 as int].0 is Client {
                        cs_add_adj(old(self).clients@, final(self).clients@, np.0, np.1) && final(self).servers == old(self).servers
                    } else {
                        cs_add_adj(old(self).servers@, final(self).servers@, np.0, np.1) && final(self).clients == old(self).clients
                    }
                },
            },
    {
        let a = id_1 as i32;
        let b = id_2 as i32;
        let (kind_a, _) = get_node_type(a, &self.id_to_type);
        let (kind_b, _) = get_node_type(b, &self.id_to_type);
        if kind_a == 1 {
            cs_add_adjacency(&mut self.clients, a, b);
        } else if kind_a == 2 {
            cs_add_adjacency(&mut self.servers, a, b);
        } else if kind_b == 1 {
            cs_add_adjacency(&mut self.clients, b, a);
        } else if kind_b == 2 {
            cs_add_adjacency(&mut self.servers, b, a);
        }
    }

    /// Find which of the pair is a client or server and move the peer out
    /// of its adjacent list.
    fn cross_remove_update(&mut self, id_1: u8, id_2: u8)
        requires
            old(self).wf(),
            id_1 != id_2,
        ensures
            final(self).wf(),
            final(self).id_to_type == old(self).id_to_type,
            final(self).edges == old(self).edges,
            final(self).drones == old(self).drones,
            final(self).senders == old(self).senders,
            final(self).channels == old(self).channels,
            match cross_target(old(self).id_to_type@, id_1 as i32, id_2 as i32) {
                Option::None => final(self).clients == old(self).clients && final(self).servers
                    == old(self).servers,
                Option::Some(np) => {
                    if old(self).id_to_type@[np.0 as int].0 is Client {
                        cs_remove_adj(old(self).clients@, final(self).clients@, np.0, np.1)
                            && final(self).servers == old(self).servers
                    } else {
                        cs_remove_adj(old(self).servers@, final(self).servers@, np.0, np.1)
                            && final(self).clients == old(self).clients
                    }
                },
            },
    {
        let a = id_1 as i32;
        let b = id_2 as i32;
        let (kind_a, _) = get_node_type(a, &self.id_to_type);
        let (kind_b, _) = get_node_type(b, &self.id_to_type);
        if kind_a == 1 {
            cs_remove_adjacency(&mut self.clients, a, b);
        } else if kind_a == 2 {
            cs_remove_adjacency(&mut self.servers, a, b);
        } else if kind_b == 1 {
            cs_remove_adjacency(&mut self.clients, b, a);
        } else if kind_b == 2 {
            cs_remove_adjacency(&mut self.servers, b, a);
        }
    }

    /// Remove the link between a drone and a client or server: command
    /// each side to drop its channel to the other, remove the pair's edge,
    /// and move the drone out of the client's or server's adjacent list.
    pub fn on_remove_edge_client_server(&mut self, id_1: u8, id_2: u8) -> (records: Vec<
        SendRecord,
    >)
        requires
            old(self).wf(),
            id_1 != id_2,
        ensures
            final(self).wf(),
            final(self).id_to_type == old(self).id_to_type,
            final(self).drones == old(self).drones,
            final(self).senders == old(self).senders,
            final(self).channels == old(self).channels,
            records_match(
                records@,
                seq![
                    (id_1, Command::RemoveSender(id_2)),
                    (id_2, Command::RemoveSender(id_1)),
                ],
                old(self).senders,
            ),
            !spec_has_edge(old(self).edges@, id_1 as int, id_2 as int) ==> final(self).edges@
                == old(self).edges@,
            spec_has_edge(old(self).edges@, id_1 as int, id_2 as int) ==> exists|k: int|
                0 <= k < old(self).edges@.len() && edge_matches(
                    old(self).edges@[k],
                    id_1 as int,
                    id_2 as int,
                ) && final(self).edges@ == old(self).edges@.remove(k),
            !spec_has_edge(final(self).edges@, id_1 as int, id_2 as int),
            match cross_target(old(self).id_to_type@, id_1 as i32, id_2 as i32) {
                Option::None => final(self).clients == old(self).clients && final(self).servers
                    == old(self).servers,
                Option::Some(np) => {
                    if old(self).id_to_type@[np.0 as int].0 is Client {
                        cs_remove_adj(old(self).clients@, final(self).clients@, np.0, np.1)
                            && final(self).servers == old(self).servers
                    } else {
                        cs_remove_adj(old(self).servers@, final(self).servers@, np.0, np.1)
                            && final(self).clients == old(self).clients
                    }
                },
            },
    {
        let mut records: Vec<SendRecord> = Vec::new();
        let result = send_drone_command(&self.senders, id_1, Command::RemoveSender(id_2));
        records.push(SendRecord { target: id_1, command: Command::RemoveSender(id_2), result });
        let result = send_drone_command(&self.senders, id_2, Command::RemoveSender(id_1));
        records.push(SendRecord { target: id_2, command: Command::RemoveSender(id_1), result });

        remove_edge_pair(&mut self.edges, id_1 as i32, id_2 as i32);
        self.cross_remove_update(id_1, id_2);
        records
    }

    /// Add a link between a drone and a client or server: wire each side's
    /// outgoing channel to the other where the peer's data channel is
    /// held, and — unless the pair is already connected — append the edge,
    /// with both kinds looked up, and move the drone into the client's or
    /// server's adjacent list.
    pub fn on_add_edge_client_server(&mut self, id_1: u8, id_2: u8) -> (records: Vec<SendRecord>)
        requires
            old(self).wf(),
            id_1 != id_2,
        ensures
            final(self).wf(),
            final(self).id_to_type == old(self).id_to_type,
            final(self).drones == old(self).drones,
            final(self).senders == old(self).senders,
            final(self).channels == old(self).channels,
            records_match(
                records@,
                add_edge_plan(old(self).channels, id_1, id_2),
                old(self).senders,
            ),
            spec_has_edge(old(self).edges@, id_1 as int, id_2 as int) ==> final(self).edges@
                == old(self).edges@ && final(self).clients == old(self).clients && final(self).servers == old(self).servers,
            !spec_has_edge(old(self).edges@, id_1 as int, id_2 as int) ==> final(self).edges@
                == old(self).edges@.push(
                added_cross_edge(old(self).id_to_type@, id_1 as i32, id_2 as i32),
            ) && (match cross_target(old(self).id_to_type@, id_1 as i32, id_2 as i32) {
                Option::None => final(self).clients == old(self).clients && final(self).servers
                    == old(self).servers,
                Option::Some(np) => {
                    if old(self).id_to_type@[np.0 as int].0 is Client {
                        cs_add_adj(old(self).clients@, final(self).clients@, np.0, np.1) && final(self).servers == old(self).servers
                    } else {
                        cs_add_adj(old(self).servers@, final(self).servers@, np.0, np.1) && final(self).clients == old(self).clients
                    }
                },
            }),
            spec_has_edge(final(self).edges@, id_1 as int, id_2 as int),
    {
        let ghost plan = add_edge_plan(self.channels, id_1, id_2);
        let mut records: Vec<SendRecord> = Vec::new();
        let mut have_1: bool = false;
        let mut have_2: bool = false;
        match &self.channels {
            Option::None => {},
            Option::Some(cs) => {
                have_1 = cs.contains(id_1);
                have_2 = cs.contains(id_2);
            },
        }
        if have_2 {
            let result = send_drone_command(&self.senders, id_1, Command::AddSender(id_2));
            records.push(SendRecord { target: id_1, command: Command::AddSender(id_2), result });
        }
        if have_1 {
            let result = send_drone_command(&self.senders, id_2, Command::AddSender(id_1));
            records.push(SendRecord { target: id_2, command: Command::AddSender(id_1), result });
        }
        proof {
            assert(records_match(records@, plan, self.senders)) by {
                if have_2 {
                    assert(plan[0] == (id_1, Command::AddSender(id_2)));
                }
                if have_1 {
                    assert(plan[plan.len() - 1] == (id_2, Command::AddSender(id_1)));
                }
            }
        }

        let a = id_1 as i32;
        let b = id_2 as i32;
        if !check_edges(&self.edges, a, b) {
            let (node_type1, index1) = get_node_type(a, &self.id_to_type);
            let (node_type2, index2) = get_node_type(b, &self.id_to_type);
            let ghost pre = self.edges@;
            let edge = if a < b {
                EdgeStruct { id1: a, id2: b, node_type1, node_type2, index1, index2 }
            } else {
                EdgeStruct {
                    id1: b,
                    id2: a,
                    node_type1: node_type2,
                    node_type2: node_type1,
                    index1: index2,
                    index2: index1,
                }
            };
            self.edges.push(edge);
            proof {
                assert(edge == added_cross_edge(self.id_to_type@, a, b));
                assert(edges_unique(self.edges@)) by {
                    assert forall|k1: int, k2: int|
                        0 <= k1 < k2 < self.edges@.len() implies !edge_matches(
                        self.edges@[k1],
                        self.edges@[k2].id1 as int,
                        self.edges@[k2].id2 as int,
                    ) by {
                        if k2 == self.edges@.len() - 1 {
                            assert(!edge_matches(pre[k1], a as int, b as int));
                        }
                    }
                }
                assert(edge_matches(
                    self.edges@[self.edges@.len() - 1],
                    id_1 as int,
                    id_2 as int,
                ));
            }
            self.cross_add_update(id_1, id_2);
        } else {
            proof {
                let k = choose|k: int|
                    0 <= k < self.edges@.len() && edge_matches(
                        self.edges@[k],
                        id_1 as int,
                        id_2 as int,
                    );
            }
        }
        records
    }
}


/// The effect of a crash of node `id` on one drone record: `id` leaves
/// both neighbor lists; every other field is untouched.
pub open spec fn drone_crash_effect(d0: DroneStruct, d1: DroneStruct, id: i32) -> bool {
    &&& d1.id == d0.id
    &&& d1.pdr == d0.pdr
    &&& d1.crashed == d0.crashed
    &&& d1.position_in_vector == d0.position_in_vector
    &&& d1.adjacent@.to_set() == d0.adjacent@.to_set().remove(id)
    &&& d1.not_adjacent@.to_set() == d0.not_adjacent@.to_set().remove(id)
}

/// The effect of a crash of node `id` on one client or server record.
pub open spec fn cs_crash_effect(c0: ClientServerStruct, c1: ClientServerStruct, id: i32) -> bool {
    &&& c1.id == c0.id
    &&& c1.position_in_vector == c0.position_in_vector
    &&& c1.drones_adjacent@.to_set() == c0.drones_adjacent@.to_set().remove(id)
    &&& c1.drones_not_adjacent@.to_set() == c0.drones_not_adjacent@.to_set().remove(id)
}

/// Whether each record of `post` is the corresponding record of `pre`
/// with the crashed id removed from both neighbor lists.
pub open spec fn drones_crashed(pre: Seq<DroneStruct>, post: Seq<DroneStruct>, id: i32) -> bool {
    &&& post.len() == pre.len()
    &&& forall|m: int| 0 <= m < pre.len() ==> drone_crash_effect(#[trigger] pre[m], post[m], id)
}

/// Whether each record of `post` is the corresponding record of `pre`
/// with the crashed id removed from both neighbor lists.
pub open spec fn cs_crashed(
    pre: Seq<ClientServerStruct>,
    post: Seq<ClientServerStruct>,
    id: i32,
) -> bool {
    &&& post.len() == pre.len()
    &&& forall|m: int| 0 <= m < pre.len() ==> cs_crash_effect(#[trigger] pre[m], post[m], id)
}

/// List-level well-formedness of drone records.
pub open spec fn drone_list_wf(list: Seq<DroneStruct>) -> bool {
    forall|i: int| 0 <= i < list.len() ==> drone_wf(#[trigger] list[i]) && 0 <= list[i].id <= 255
}

/// Whether a fan-out record targets some drone that listed the crashed id
/// as adjacent.
pub open spec fn fanout_record_from_drones(
    list: Seq<DroneStruct>,
    id: i32,
    rec: SendRecord,
) -> bool {
    exists|j: int|
        0 <= j < list.len() && (#[trigger] list[j]).adjacent@.contains(id) && rec.target == list[
            j].id as u8
}

/// Whether a fan-out record targets some client or server that listed the
/// crashed id as adjacent.
pub open spec fn fanout_record_from_cs(
    list: Seq<ClientServerStruct>,
    id: i32,
    rec: SendRecord,
) -> bool {
    exists|j: int|
        0 <= j < list.len() && (#[trigger] list[j]).drones_adjacent@.contains(id) && rec.target
            == list[j].id as u8
}

/// Remove the crashed id from every drone record's lists, commanding each
/// drone that was connected to it to drop its channel to it.
#[verifier::rlimit(30)]
fn crash_update_drones(
    list: &mut Vec<DroneStruct>,
    senders: &Option<ChannelMap>,
    id: u8,
    records: &mut Vec<SendRecord>,
)
    requires
        drone_list_wf(old(list)@),
    ensures
        drone_list_wf(final(list)@),
        drones_crashed(old(list)@, final(list)@, id as i32),
        final(records)@.len() >= old(records)@.len(),
        forall|k: int| 0 <= k < old(records)@.len() ==> final(records)@[k] == old(records)@[k],
        forall|k: int|
            old(records)@.len() <= k < final(records)@.len() ==> (#[trigger] final(records)@[k]).command == Command::RemoveSender(id) && valid_send_result(
                *senders,
                final(records)@[k].target,
                final(records)@[k].result,
            ),
        forall|m: int|
            0 <= m < old(list)@.len() && (#[trigger] old(list)@[m]).adjacent@.contains(id as i32)
                ==> exists|k: int|
                old(records)@.len() <= k < final(records)@.len() && (#[trigger] final(records)@[k]).target == old(list)@[m].id as u8,
        forall|k: int|
            old(records)@.len() <= k < final(records)@.len() ==> fanout_record_from_drones(
                old(list)@,
                id as i32,
                #[trigger] final(records)@[k],
            ),
{
    let n = list.len();
    let ghost rec0 = records@;
    let mut m: usize = 0;
    while m < n
        invariant
            drone_list_wf(old(list)@),
            n == list@.len(),
            list@.len() == old(list)@.len(),
            0 <= m <= n,
            forall|j: int|
                0 <= j < m ==> drone_crash_effect(#[trigger] old(list)@[j], list@[j], id as i32),
            forall|j: int|
                0 <= j < m ==> drone_wf(#[trigger] list@[j]) && 0 <= list@[j].id <= 255,
            forall|j: int| m <= j < n ==> list@[j] == old(list)@[j],
            records@.len() >= rec0.len(),
            forall|k: int| 0 <= k < rec0.len() ==> records@[k] == rec0[k],
            forall|k: int|
                rec0.len() <= k < records@.len() ==> (#[trigger] records@[k]).command
                    == Command::RemoveSender(id) && valid_send_result(
                    *senders,
                    records@[k].target,
                    records@[k].result,
                ),
            forall|j: int|
                0 <= j < m && (#[trigger] old(list)@[j]).adjacent@.contains(id as i32)
                    ==> exists|k: int|
                    rec0.len() <= k < records@.len() && (#[trigger] records@[k]).target == old(list)@[j].id as u8,
            forall|k: int|
                rec0.len() <= k < records@.len() ==> fanout_record_from_drones(
                    old(list)@,
                    id as i32,
                    #[trigger] records@[k],
                ),
        decreases n - m,
    {
        let d_id = list[m].id;
        let ghost d0 = list@[m as int];
        let ghost recs_before = records@;
        let d = vec_index_mut(list, m);
        let ghost adj0 = d.adjacent@;
        let ghost nadj0 = d.not_adjacent@;
        let was_adjacent = remove_id(&mut d.adjacent, id as i32);
        remove_id(&mut d.not_adjacent, id as i32);
        proof {
            assert forall|y: i32|
                !(d.adjacent@.contains(y) && #[trigger] d.not_adjacent@.contains(y)) by {
                if d.adjacent@.contains(y) && d.not_adjacent@.contains(y) {
                    assert(adj0.contains(y) && nadj0.contains(y));
                }
            }
        }
        if was_adjacent {
            let result = send_drone_command(senders, d_id as u8, Command::RemoveSender(id));
            records.push(
                SendRecord { target: d_id as u8, command: Command::RemoveSender(id), result },
            );
        }
        proof {
            assert forall|j: int| 0 <= j < m as int + 1 implies drone_crash_effect(
                #[trigger] old(list)@[j],
                list@[j],
                id as i32,
            ) by {
                if j == m as int {
                    assert(old(list)@[j] == d0);
                }
            }
            assert forall|j: int| 0 <= j < m as int + 1 implies drone_wf(#[trigger] list@[j]) && 0
                <= list@[j].id <= 255 by {
                if j == m as int {
                    assert(old(list)@[j] == d0);
                    assert(drone_crash_effect(d0, list@[j], id as i32));
                }
            }
            assert forall|j: int|
                0 <= j < m as int + 1 && (#[trigger] old(list)@[j]).adjacent@.contains(id as i32)
                    implies exists|k: int|
                rec0.len() <= k < records@.len() && (#[trigger] records@[k]).target == old(list)@[j].id as u8 by {
                if j == m as int {
                    assert(d0.adjacent@.contains(id as i32));
                    assert(records@[records@.len() - 1].target == d_id as u8);
                } else {
                    let k = choose|k: int|
                        rec0.len() <= k < recs_before.len() && recs_before[k].target == old(list)@[j].id as u8;
                    assert(records@[k].target == old(list)@[j].id as u8);
                }
            }
            assert forall|k: int| rec0.len() <= k < records@.len() implies fanout_record_from_drones(
                old(list)@,
                id as i32,
                #[trigger] records@[k],
            ) by {
                if k < recs_before.len() {
                    assert(records@[k] == recs_before[k]);
                    assert(fanout_record_from_drones(old(list)@, id as i32, recs_before[k]));
                } else {
                    assert(old(list)@[m as int].adjacent@.contains(id as i32));
                    assert(records@[k].target == old(list)@[m as int].id as u8);
                }
            }
        }
        m = m + 1;
    }
}

/// Remove the crashed id from every client or server record's lists,
/// commanding each node that was connected to it to drop its channel.
#[verifier::rlimit(30)]
fn crash_update_cs(
    list: &mut Vec<ClientServerStruct>,
    senders: &Option<ChannelMap>,
    id: u8,
    records: &mut Vec<SendRecord>,
)
    requires
        cs_list_wf(old(list)@),
    ensures
        cs_list_wf(final(list)@),
        cs_crashed(old(list)@, final(list)@, id as i32),
        final(records)@.len() >= old(records)@.len(),
        forall|k: int| 0 <= k < old(records)@.len() ==> final(records)@[k] == old(records)@[k],
        forall|k: int|
            old(records)@.len() <= k < final(records)@.len() ==> (#[trigger] final(records)@[k]).command == Command::RemoveSender(id) && valid_send_result(
                *senders,
                final(records)@[k].target,
                final(records)@[k].result,
            ),
        forall|m: int|
            0 <= m < old(list)@.len() && (#[trigger] old(list)@[m]).drones_adjacent@.contains(
                id as i32,
            ) ==> exists|k: int|
                old(records)@.len() <= k < final(records)@.len() && (#[trigger] final(records)@[k]).target == old(list)@[m].id as u8,
        forall|k: int|
            old(records)@.len() <= k < final(records)@.len() ==> fanout_record_from_cs(
                old(list)@,
                id as i32,
                #[trigger] final(records)@[k],
            ),
{
    let n = list.len();
    let ghost rec0 = records@;
    let mut m: usize = 0;
    while m < n
        invariant
            cs_list_wf(old(list)@),
            n == list@.len(),
            list@.len() == old(list)@.len(),
            0 <= m <= n,
            forall|j: int|
                0 <= j < m ==> cs_crash_effect(#[trigger] old(list)@[j], list@[j], id as i32),
            forall|j: int|
                0 <= j < m ==> client_server_wf(#[trigger] list@[j]) && 0 <= list@[j].id <= 255,
            forall|j: int| m <= j < n ==> list@[j] == old(list)@[j],
            records@.len() >= rec0.len(),
            forall|k: int| 0 <= k < rec0.len() ==> records@[k] == rec0[k],
            forall|k: int|
                rec0.len() <= k < records@.len() ==> (#[trigger] records@[k]).command
                    == Command::RemoveSender(id) && valid_send_result(
                    *senders,
                    records@[k].target,
                    records@[k].result,
                ),
            forall|j: int|
                0 <= j < m && (#[trigger] old(list)@[j]).drones_adjacent@.contains(id as i32)
                    ==> exists|k: int|
                    rec0.len() <= k < records@.len() && (#[trigger] records@[k]).target == old(list)@[j].id as u8,
            forall|k: int|
                rec0.len() <= k < records@.len() ==> fanout_record_from_cs(
                    old(list)@,
                    id as i32,
                    #[trigger] records@[k],
                ),
        decreases n - m,
    {
        let c_id = list[m].id;
        let ghost c0 = list@[m as int];
        let ghost recs_before = records@;
        let c = vec_index_mut(list, m);
        let ghost adj0 = c.drones_adjacent@;
        let ghost nadj0 = c.drones_not_adjacent@;
        let was_adjacent = remove_id(&mut c.drones_adjacent, id as i32);
        remove_id(&mut c.drones_not_adjacent, id as i32);
        proof {
            assert forall|y: i32|
                !(c.drones_adjacent@.contains(y) && #[trigger] c.drones_not_adjacent@.contains(
                    y,
                )) by {
                if c.drones_adjacent@.contains(y) && c.drones_not_adjacent@.contains(y) {
                    assert(adj0.contains(y) && nadj0.contains(y));
                }
            }
        }
        if was_adjacent {
            let result = send_drone_command(senders, c_id as u8, Command::RemoveSender(id));
            records.push(
                SendRecord { target: c_id as u8, command: Command::RemoveSender(id), result },
            );
        }
        proof {
            assert forall|j: int| 0 <= j < m as int + 1 implies cs_crash_effect(
                #[trigger] old(list)@[j],
                list@[j],
                id as i32,
            ) by {
                if j == m as int {
                    assert(old(list)@[j] == c0);
                }
            }
            assert forall|j: int| 0 <= j < m as int + 1 implies client_server_wf(
                #[trigger] list@[j],
            ) && 0 <= list@[j].id <= 255 by {
                if j == m as int {
                    assert(old(list)@[j] == c0);
                    assert(cs_crash_effect(c0, list@[j], id as i32));
                }
            }
            assert forall|j: int|
                0 <= j < m as int + 1 && (#[trigger] old(list)@[j]).drones_adjacent@.contains(
                    id as i32,
                ) implies exists|k: int|
                rec0.len() <= k < records@.len() && (#[trigger] records@[k]).target == old(list)@[j].id as u8 by {
                if j == m as int {
                    assert(c0.drones_adjacent@.contains(id as i32));
                    assert(records@[records@.len() - 1].target == c_id as u8);
                } else {
                    let k = choose|k: int|
                        rec0.len() <= k < recs_before.len() && recs_before[k].target == old(list)@[j].id as u8;
                    assert(records@[k].target == old(list)@[j].id as u8);
                }
            }
            assert forall|k: int| rec0.len() <= k < records@.len() implies fanout_record_from_cs(
                old(list)@,
                id as i32,
                #[trigger] records@[k],
            ) by {
                if k < recs_before.len() {
                    assert(records@[k] == recs_before[k]);
                    assert(fanout_record_from_cs(old(list)@, id as i32, recs_before[k]));
                } else {
                    assert(old(list)@[m as int].drones_adjacent@.contains(id as i32));
                    assert(records@[k].target == old(list)@[m as int].id as u8);
                }
            }
        }
        m = m + 1;
    }
}

/// What the records of a crash intent promise: the crash command to the
/// crashed node first, then one drop-channel command to every node that
/// listed it as adjacent — and to no other node — every outcome one the
/// dispatcher may report.
pub open spec fn crash_records_ok(
    records: Seq<SendRecord>,
    id: u8,
    st: SimulationController,
) -> bool {
    &&& records.len() >= 1
    &&& records[0].target == id
    &&& records[0].command == Command::Crash
    &&& valid_send_result(st.senders, id, records[0].result)
    &&& forall|k: int|
        1 <= k < records.len() ==> (#[trigger] records[k]).command == Command::RemoveSender(id)
            && valid_send_result(st.senders, records[k].target, records[k].result)
    &&& forall|k: int|
        1 <= k < records.len() ==> (fanout_record_from_drones(st.drones@, id as i32, #[trigger] records[k])
            || fanout_record_from_cs(st.clients@, id as i32, records[k]) || fanout_record_from_cs(
            st.servers@,
            id as i32,
            records[k],
        ))
    &&& forall|m: int|
        0 <= m < st.drones@.len() && (#[trigger] st.drones@[m]).adjacent@.contains(id as i32)
            ==> exists|k: int|
            1 <= k < records.len() && (#[trigger] records[k]).target == st.drones@[m].id as u8
    &&& forall|m: int|
        0 <= m < st.clients@.len() && (#[trigger] st.clients@[m]).drones_adjacent@.contains(
            id as i32,
        ) ==> exists|k: int|
            1 <= k < records.len() && (#[trigger] records[k]).target == st.clients@[m].id as u8
    &&& forall|m: int|
        0 <= m < st.servers@.len() && (#[trigger] st.servers@[m]).drones_adjacent@.contains(
            id as i32,
        ) ==> exists|k: int|
            1 <= k < records.len() && (#[trigger] records[k]).target == st.servers@[m].id as u8
}

impl SimulationController {
    /// Crash a node: command it to stop, remove every edge touching it,
    /// remove its id from every other node's neighbor lists — commanding
    /// each formerly connected node to drop its channel to it — and drop
    /// its own command and data channels. Its registry entry stays until
    /// the next full reconfiguration.
    #[verifier::rlimit(30)]
    pub fn on_crash(&mut self, id: u8) -> (records: Vec<SendRecord>)
        requires
            old(self).wf(),
        ensures
            final(self).wf(),
            final(self).id_to_type == old(self).id_to_type,
            final(self).edges@ == old(self).edges@.filter(
                crate::graph::not_touching(id as i32),
            ),
            drones_crashed(old(self).drones@, final(self).drones@, id as i32),
            cs_crashed(old(self).clients@, final(self).clients@, id as i32),
            cs_crashed(old(self).servers@, final(self).servers@, id as i32),
            old(self).senders is None ==> final(self).senders is None,
            old(self).senders matches Some(map) ==> final(self).senders matches Some(map2)
                && map2@ == map@.remove(id as int),
            old(self).channels is None ==> final(self).channels is None,
            old(self).channels matches Some(cs) ==> final(self).channels matches Some(cs2) && cs2@
                == cs@.remove(id),
            crash_records_ok(records@, id, *old(self)),
    {
        let mut records: Vec<SendRecord> = Vec::new();
        let result = send_drone_command(&self.senders, id, Command::Crash);
        records.push(SendRecord { target: id, command: Command::Crash, result });

        remove_edges_touching(&mut self.edges, id as i32);

        let ghost rec_after_crash = records@;
        crash_update_drones(&mut self.drones, &self.senders, id, &mut records);
        let ghost rec_after_drones = records@;
        crash_update_cs(&mut self.servers, &self.senders, id, &mut records);
        let ghost rec_after_servers = records@;
        crash_update_cs(&mut self.clients, &self.senders, id, &mut records);

        if let Option::Some(cs) = &mut self.channels {
            cs.remove(id);
        }
        if let Option::Some(map) = &mut self.senders {
            map.remove(id);
        }

        proof {
            assert(crash_records_ok(records@, id, *old(self))) by {
                assert(records@[0].target == id && records@[0].command == Command::Crash);
                assert forall|m: int|
                    0 <= m < old(self).drones@.len() && (#[trigger] old(self).drones@[m]).adjacent@.contains(id as i32) implies exists|k: int|
                    1 <= k < records@.len() && (#[trigger] records@[k]).target == old(self).drones@[m].id as u8 by {
                    let k = choose|k: int|
                        rec_after_crash.len() <= k < rec_after_drones.len() && rec_after_drones[
                            k].target == old(self).drones@[m].id as u8;
                    assert(records@[k].target == old(self).drones@[m].id as u8);
                }
                assert forall|m: int|
                    0 <= m < old(self).servers@.len() && (#[trigger] old(self).servers@[m]).drones_adjacent@.contains(id as i32) implies exists|k: int|
                    1 <= k < records@.len() && (#[trigger] records@[k]).target == old(self).servers@[m].id as u8 by {
                    let k = choose|k: int|
                        rec_after_drones.len() <= k < rec_after_servers.len() && rec_after_servers[
                            k].target == old(self).servers@[m].id as u8;
                    assert(records@[k].target == old(self).servers@[m].id as u8);
                }
                assert forall|m: int|
                    0 <= m < old(self).clients@.len() && (#[trigger] old(self).clients@[m]).drones_adjacent@.contains(id as i32) implies exists|k: int|
                    1 <= k < records@.len() && (#[trigger] records@[k]).target == old(self).clients@[m].id as u8 by {
                    let k = choose|k: int|
                        rec_after_servers.len() <= k < records@.len() && records@[k].target == old(self).clients@[m].id as u8;
                    assert(records@[k].target == old(self).clients@[m].id as u8);
                }
                assert forall|k: int| 1 <= k < records@.len() implies (fanout_record_from_drones(
                    old(self).drones@,
                    id as i32,
                    #[trigger] records@[k],
                ) || fanout_record_from_cs(old(self).clients@, id as i32, records@[k])
                    || fanout_record_from_cs(old(self).servers@, id as i32, records@[k])) by {
                    if k < rec_after_drones.len() {
                        assert(records@[k] == rec_after_drones[k]);
                        assert(fanout_record_from_drones(
                            old(self).drones@,
                            id as i32,
                            rec_after_drones[k],
                        ));
                    } else if k < rec_after_servers.len() {
                        assert(records@[k] == rec_after_servers[k]);
                        assert(fanout_record_from_cs(
                            old(self).servers@,
                            id as i32,
                            rec_after_servers[k],
                        ));
                    } else {
                        assert(fanout_record_from_cs(old(self).clients@, id as i32, records@[k]));
                    }
                }
            }
        }
        records
    }
}


/// The commands a teardown issues for one drone: a crash command, then
/// one drop-channel command to each of its adjacent nodes.
pub open spec fn teardown_plan_drone(d: DroneStruct) -> Seq<(u8, Command)> {
    seq![(d.id as u8, Command::Crash)] + d.adjacent@.map_values(
        |adj: i32| (adj as u8, Command::RemoveSender(d.id as u8)),
    )
}

/// The commands a teardown issues for the drones, in order.
pub open spec fn teardown_plan_drones(ds: Seq<DroneStruct>) -> Seq<(u8, Command)>
    decreases ds.len(),
{
    if ds.len() == 0 {
        Seq::empty()
    } else {
        teardown_plan_drone(ds[0]) + teardown_plan_drones(ds.drop_first())
    }
}

/// The commands a teardown issues for one client or server: a crash
/// command, then one drop-channel command to each of its adjacent nodes.
pub open spec fn teardown_plan_cs_node(c: ClientServerStruct) -> Seq<(u8, Command)> {
    seq![(c.id as u8, Command::Crash)] + c.drones_adjacent@.map_values(
        |adj: i32| (adj as u8, Command::RemoveSender(c.id as u8)),
    )
}

/// The commands a teardown issues for the clients or servers, in order.
pub open spec fn teardown_plan_cs(cs: Seq<ClientServerStruct>) -> Seq<(u8, Command)>
    decreases cs.len(),
{
    if cs.len() == 0 {
        Seq::empty()
    } else {
        teardown_plan_cs_node(cs[0]) + teardown_plan_cs(cs.drop_first())
    }
}

/// Every command a teardown issues, in order: each node's crash followed
/// by its channel fan-out — drones first, then clients, then servers.
pub open spec fn teardown_plan(st: SimulationController) -> Seq<(u8, Command)> {
    teardown_plan_drones(st.drones@) + teardown_plan_cs(st.clients@) + teardown_plan_cs(st.servers@)
}

/// Whether the records carry out the plan, entry for entry, in order.
pub open spec fn records_carry(records: Seq<SendRecord>, plan: Seq<(u8, Command)>) -> bool {
    &&& records.len() == plan.len()
    &&& forall|k: int|
        0 <= k < plan.len() ==> (#[trigger] records[k]).target == plan[k].0 && records[k].command
            == plan[k].1
}

/// The drone teardown plan grows drone by drone.
proof fn lemma_teardown_plan_drones_push(ds: Seq<DroneStruct>, d: DroneStruct)
    ensures
        teardown_plan_drones(ds.push(d)) == teardown_plan_drones(ds) + teardown_plan_drone(d),
    decreases ds.len(),
{
    if ds.len() == 0 {
        assert(ds.push(d).drop_first() =~= Seq::<DroneStruct>::empty());
        assert(ds.push(d)[0] == d);
        assert(teardown_plan_drones(ds) =~= Seq::<(u8, Command)>::empty());
        assert(teardown_plan_drones(ds.push(d).drop_first()) =~= Seq::<(u8, Command)>::empty());
        assert(teardown_plan_drones(ds.push(d)) == teardown_plan_drone(d) + teardown_plan_drones(
            ds.push(d).drop_first(),
        ));
        assert(teardown_plan_drones(ds.push(d)) =~= teardown_plan_drones(ds)
            + teardown_plan_drone(d));
    } else {
        assert(ds.push(d).drop_first() =~= ds.drop_first().push(d));
        assert(ds.push(d)[0] == ds[0]);
        lemma_teardown_plan_drones_push(ds.drop_first(), d);
        assert(teardown_plan_drones(ds.push(d)) == teardown_plan_drone(ds[0]) + (
        teardown_plan_drones(ds.drop_first()) + teardown_plan_drone(d)));
        assert(teardown_plan_drone(ds[0]) + (teardown_plan_drones(ds.drop_first())
            + teardown_plan_drone(d)) =~= (teardown_plan_drone(ds[0]) + teardown_plan_drones(
            ds.drop_first(),
        )) + teardown_plan_drone(d));
    }
}

/// The client or server teardown plan grows node by node.
proof fn lemma_teardown_plan_cs_push(cs: Seq<ClientServerStruct>, c: ClientServerStruct)
    ensures
        teardown_plan_cs(cs.push(c)) == teardown_plan_cs(cs) + teardown_plan_cs_node(c),
    decreases cs.len(),
{
    if cs.len() == 0 {
        assert(cs.push(c).drop_first() =~= Seq::<ClientServerStruct>::empty());
        assert(cs.push(c)[0] == c);
        assert(teardown_plan_cs(cs) =~= Seq::<(u8, Command)>::empty());
        assert(teardown_plan_cs(cs.push(c).drop_first()) =~= Seq::<(u8, Command)>::empty());
        assert(teardown_plan_cs(cs.push(c)) == teardown_plan_cs_node(c) + teardown_plan_cs(
            cs.push(c).drop_first(),
        ));
        assert(teardown_plan_cs(cs.push(c)) =~= teardown_plan_cs(cs) + teardown_plan_cs_node(c));
    } else {
        assert(cs.push(c).drop_first() =~= cs.drop_first().push(c));
        assert(cs.push(c)[0] == cs[0]);
        lemma_teardown_plan_cs_push(cs.drop_first(), c);
        assert(teardown_plan_cs(cs.push(c)) == teardown_plan_cs_node(cs[0]) + (teardown_plan_cs(
            cs.drop_first(),
        ) + teardown_plan_cs_node(c)));
        assert(teardown_plan_cs_node(cs[0]) + (teardown_plan_cs(cs.drop_first())
            + teardown_plan_cs_node(c)) =~= (teardown_plan_cs_node(cs[0]) + teardown_plan_cs(
            cs.drop_first(),
        )) + teardown_plan_cs_node(c));
    }
}

/// The ids of a prefix of the drone records, as a set.
pub open spec fn drone_id_set(ds: Seq<DroneStruct>) -> Set<int> {
    ds.map_values(|d: DroneStruct| d.id as int).to_set()
}

/// The ids of a prefix of the client or server records, as a set.
pub open spec fn cs_id_set(cs: Seq<ClientServerStruct>) -> Set<int> {
    cs.map_values(|c: ClientServerStruct| c.id as int).to_set()
}

/// Every node id of the state, as a set.
pub open spec fn all_node_ids(st: SimulationController) -> Set<int> {
    drone_id_set(st.drones@) + cs_id_set(st.clients@) + cs_id_set(st.servers@)
}

/// Whether `post` is `pre` with exactly the ids in `removed` dropped,
/// every kept channel unchanged — or no map at all on both sides.
pub open spec fn map_cleared(
    pre: Option<ChannelMap>,
    post: Option<ChannelMap>,
    removed: Set<int>,
) -> bool {
    match (pre, post) {
        (Option::None, Option::None) => true,
        (Option::Some(m0), Option::Some(m1)) => {
            &&& forall|idn: int|
                #[trigger] m1@.dom().contains(idn) <==> (m0@.dom().contains(idn)
                    && !removed.contains(idn))
            &&& forall|idn: int| #[trigger] m1@.dom().contains(idn) ==> m1@[idn] == m0@[idn]
        },
        _ => false,
    }
}

/// Whether `post` is `pre` with exactly the ids in `removed` dropped — or
/// no set at all on both sides.
pub open spec fn set_cleared(
    pre: Option<ChannelSet>,
    post: Option<ChannelSet>,
    removed: Set<int>,
) -> bool {
    match (pre, post) {
        (Option::None, Option::None) => true,
        (Option::Some(s0), Option::Some(s1)) => {
            forall|idn: u8|
                #[trigger] s1@.contains(idn) <==> (s0@.contains(idn) && !removed.contains(
                    idn as int,
                ))
        },
        _ => false,
    }
}

/// Pushing a value onto a sequence of ints adds it to the set of them.
proof fn lemma_push_to_set_int(s: Seq<int>, x: int)
    ensures
        s.push(x).to_set() == s.to_set().insert(x),
{
    let post = s.push(x);
    assert(post.to_set() =~= s.to_set().insert(x)) by {
        assert forall|y: int| #[trigger] post.contains(y) implies s.contains(y) || y == x by {
            let j = choose|j: int| 0 <= j < post.len() && post[j] == y;
            if j < s.len() {
                assert(s[j] == y);
            }
        }
        assert(post[post.len() - 1] == x);
        assert forall|y: int| s.contains(y) implies #[trigger] post.contains(y) by {
            let j = choose|j: int| 0 <= j < s.len() && s[j] == y;
            assert(post[j] == y);
        }
    }
}

/// The id set of a prefix of the drone records grows id by id.
proof fn lemma_drone_id_set_take(ds: Seq<DroneStruct>, m: int)
    requires
        0 <= m < ds.len(),
    ensures
        drone_id_set(ds.take(m + 1)) == drone_id_set(ds.take(m)).insert(ds[m].id as int),
{
    let f = |d: DroneStruct| d.id as int;
    assert(ds.take(m + 1).map_values(f) =~= ds.take(m).map_values(f).push(ds[m].id as int));
    lemma_push_to_set_int(ds.take(m).map_values(f), ds[m].id as int);
}

/// The id set of a prefix of the client or server records grows id by id.
proof fn lemma_cs_id_set_take(cs: Seq<ClientServerStruct>, m: int)
    requires
        0 <= m < cs.len(),
    ensures
        cs_id_set(cs.take(m + 1)) == cs_id_set(cs.take(m)).insert(cs[m].id as int),
{
    let f = |c: ClientServerStruct| c.id as int;
    assert(cs.take(m + 1).map_values(f) =~= cs.take(m).map_values(f).push(cs[m].id as int));
    lemma_push_to_set_int(cs.take(m).map_values(f), cs[m].id as int);
}

impl SimulationController {
    /// Quiesce the whole network: command every node — drones first, then
    /// clients, then servers — to stop, command each of its adjacent
    /// nodes to drop its channel to it, and drop every node's command and
    /// data channels. The graph and registry are left as they are: the
    /// caller either exits the process or rebuilds them from a new
    /// configuration.
    #[verifier::rlimit(60)]
    pub fn shutdown(&mut self) -> (records: Vec<SendRecord>)
        requires
            old(self).wf(),
        ensures
            final(self).wf(),
            final(self).id_to_type == old(self).id_to_type,
            final(self).edges == old(self).edges,
            final(self).drones == old(self).drones,
            final(self).clients == old(self).clients,
            final(self).servers == old(self).servers,
            records_carry(records@, teardown_plan(*old(self))),
            map_cleared(old(self).senders, final(self).senders, all_node_ids(*old(self))),
            set_cleared(old(self).channels, final(self).channels, all_node_ids(*old(self))),
    {
        let mut records: Vec<SendRecord> = Vec::new();
        let ghost ds = self.drones@;
        let ghost cls = self.clients@;
        let ghost svs = self.servers@;
        proof {
            assert(ds.take(0).map_values(|d: DroneStruct| d.id as int) =~= Seq::<int>::empty());
            assert(drone_id_set(ds.take(0)) =~= Set::<int>::empty());
            assert(teardown_plan_drones(ds.take(0)) =~= Seq::<(u8, Command)>::empty());
        }

        let nd = self.drones.len();
        let mut m: usize = 0;
        while m < nd
            invariant
                old(self).wf(),
                ds == old(self).drones@,
                nd == ds.len(),
                0 <= m <= nd,
                self.id_to_type == old(self).id_to_type,
                self.edges == old(self).edges,
                self.drones == old(self).drones,
                self.clients == old(self).clients,
                self.servers == old(self).servers,
                records_carry(records@, teardown_plan_drones(ds.take(m as int))),
                map_cleared(old(self).senders, self.senders, drone_id_set(ds.take(m as int))),
                set_cleared(old(self).channels, self.channels, drone_id_set(ds.take(m as int))),
            decreases nd - m,
        {
            let d_id = self.drones[m].id;
            let ghost plan_pref = teardown_plan_drones(ds.take(m as int));
            let ghost dplan = teardown_plan_drone(ds[m as int]);
            let result = send_drone_command(&self.senders, d_id as u8, Command::Crash);
            records.push(SendRecord { target: d_id as u8, command: Command::Crash, result });
            proof {
                assert(dplan[0] == (d_id as u8, Command::Crash));
                assert(dplan.take(1) =~= seq![(d_id as u8, Command::Crash)]);
                assert(records_carry(records@, plan_pref + dplan.take(1)));
            }

            let na = self.drones[m].adjacent.len();
            let mut j: usize = 0;
            while j < na
                invariant
                    old(self).wf(),
                    ds == old(self).drones@,
                    nd == ds.len(),
                    0 <= m < nd,
                    na == ds[m as int].adjacent@.len(),
                    d_id == ds[m as int].id,
                    dplan == teardown_plan_drone(ds[m as int]),
                    plan_pref == teardown_plan_drones(ds.take(m as int)),
                    0 <= j <= na,
                    self.id_to_type == old(self).id_to_type,
                    self.edges == old(self).edges,
                    self.drones == old(self).drones,
                    self.clients == old(self).clients,
                    self.servers == old(self).servers,
                    records_carry(records@, plan_pref + dplan.take(1 + j as int)),
                    map_cleared(old(self).senders, self.senders, drone_id_set(ds.take(m as int))),
                    set_cleared(old(self).channels, self.channels, drone_id_set(ds.take(m as int))),
                decreases na - j,
            {
                let adj_id = self.drones[m].adjacent[j];
                let result = send_drone_command(
                    &self.senders,
                    adj_id as u8,
                    Command::RemoveSender(d_id as u8),
                );
                records.push(
                    SendRecord {
                        target: adj_id as u8,
                        command: Command::RemoveSender(d_id as u8),
                        result,
                    },
                );
                proof {
                    assert(dplan[1 + j as int] == (
                        adj_id as u8,
                        Command::RemoveSender(d_id as u8),
                    )) by {
                        assert(ds[m as int].adjacent@.map_values(
                            |adj: i32| (adj as u8, Command::RemoveSender(ds[m as int].id as u8)),
                        )[j as int] == (adj_id as u8, Command::RemoveSender(d_id as u8)));
                    }
                    assert(dplan.take(1 + j as int + 1) =~= dplan.take(1 + j as int).push(
                        dplan[1 + j as int],
                    ));
                    assert(records_carry(records@, plan_pref + dplan.take(1 + j as int + 1)));
                }
                j = j + 1;
            }

            if let Option::Some(cs) = &mut self.channels {
                cs.remove(d_id as u8);
            }
            if let Option::Some(map) = &mut self.senders {
                map.remove(d_id as u8);
            }
            proof {
                assert(dplan.take(1 + na as int) =~= dplan);
                assert(ds.take(m as int + 1) =~= ds.take(m as int).push(ds[m as int]));
                lemma_teardown_plan_drones_push(ds.take(m as int), ds[m as int]);
                assert(records_carry(records@, teardown_plan_drones(ds.take(m as int + 1))));
                lemma_drone_id_set_take(ds, m as int);
                assert(0 <= ds[m as int].id <= 255);
                assert(ds[m as int].id as u8 as int == ds[m as int].id as int);
                assert(map_cleared(
                    old(self).senders,
                    self.senders,
                    drone_id_set(ds.take(m as int + 1)),
                ));
                assert(set_cleared(
                    old(self).channels,
                    self.channels,
                    drone_id_set(ds.take(m as int + 1)),
                ));
            }
            m = m + 1;
        }
        proof {
            assert(ds.take(nd as int) =~= ds);
            assert(cls.take(0).map_values(|c: ClientServerStruct| c.id as int) =~= Seq::<
                int,
            >::empty());
            assert(cs_id_set(cls.take(0)) =~= Set::<int>::empty());
            assert(drone_id_set(ds) + cs_id_set(cls.take(0)) =~= drone_id_set(ds));
            assert(cls.take(0) =~= Seq::<ClientServerStruct>::empty());
            assert(teardown_plan_cs(cls.take(0)) =~= Seq::<(u8, Command)>::empty());
            assert(teardown_plan_drones(ds) + teardown_plan_cs(cls.take(0))
                =~= teardown_plan_drones(ds));
            assert(records_carry(
                records@,
                teardown_plan_drones(ds) + teardown_plan_cs(cls.take(0)),
            ));
        }

        let nc = self.clients.len();
        let mut m: usize = 0;
        while m < nc
            invariant
                old(self).wf(),
                ds == old(self).drones@,
                cls == old(self).clients@,
                nc == cls.len(),
                0 <= m <= nc,
                self.id_to_type == old(self).id_to_type,
                self.edges == old(self).edges,
                self.drones == old(self).drones,
                self.clients == old(self).clients,
                self.servers == old(self).servers,
                records_carry(
                    records@,
                    teardown_plan_drones(ds) + teardown_plan_cs(cls.take(m as int)),
                ),
                map_cleared(
                    old(self).senders,
                    self.senders,
                    drone_id_set(ds) + cs_id_set(cls.take(m as int)),
                ),
                set_cleared(
                    old(self).channels,
                    self.channels,
                    drone_id_set(ds) + cs_id_set(cls.take(m as int)),
                ),
            decreases nc - m,
        {
            let c_id = self.clients[m].id;
            let ghost base = teardown_plan_drones(ds) + teardown_plan_cs(cls.take(m as int));
            let ghost cplan = teardown_plan_cs_node(cls[m as int]);
            let result = send_drone_command(&self.senders, c_id as u8, Command::Crash);
            records.push(SendRecord { target: c_id as u8, command: Command::Crash, result });
            proof {
                assert(cplan[0] == (c_id as u8, Command::Crash));
                assert(cplan.take(1) =~= seq![(c_id as u8, Command::Crash)]);
                assert(records_carry(records@, base + cplan.take(1)));
            }

            let na = self.clients[m].drones_adjacent.len();
            let mut j: usize = 0;
            while j < na
                invariant
                    old(self).wf(),
                    ds == old(self).drones@,
                    cls == old(self).clients@,
                    nc == cls.len(),
                    0 <= m < nc,
                    na == cls[m as int].drones_adjacent@.len(),
                    c_id == cls[m as int].id,
                    cplan == teardown_plan_cs_node(cls[m as int]),
                    base == teardown_plan_drones(ds) + teardown_plan_cs(cls.take(m as int)),
                    0 <= j <= na,
                    self.id_to_type == old(self).id_to_type,
                    self.edges == old(self).edges,
                    self.drones == old(self).drones,
                    self.clients == old(self).clients,
                    self.servers == old(self).servers,
                    records_carry(records@, base + cplan.take(1 + j as int)),
                    map_cleared(
                        old(self).senders,
                        self.senders,
                        drone_id_set(ds) + cs_id_set(cls.take(m as int)),
                    ),
                    set_cleared(
                        old(self).channels,
                        self.channels,
                        drone_id_set(ds) + cs_id_set(cls.take(m as int)),
                    ),
                decreases na - j,
            {
                let adj_id = self.clients[m].drones_adjacent[j];
                let result = send_drone_command(
                    &self.senders,
                    adj_id as u8,
                    Command::RemoveSender(c_id as u8),
                );
                records.push(
                    SendRecord {
                        target: adj_id as u8,
                        command: Command::RemoveSender(c_id as u8),
                        result,
                    },
                );
                proof {
                    assert(cplan[1 + j as int] == (
                        adj_id as u8,
                        Command::RemoveSender(c_id as u8),
                    )) by {
                        assert(cls[m as int].drones_adjacent@.map_values(
                            |adj: i32| (adj as u8, Command::RemoveSender(cls[m as int].id as u8)),
                        )[j as int] == (adj_id as u8, Command::RemoveSender(c_id as u8)));
                    }
                    assert(cplan.take(1 + j as int + 1) =~= cplan.take(1 + j as int).push(
                        cplan[1 + j as int],
                    ));
                    assert(records_carry(records@, base + cplan.take(1 + j as int + 1)));
                }
                j = j + 1;
            }

            if let Option::Some(cs) = &mut self.channels {
                cs.remove(c_id as u8);
            }
            if let Option::Some(map) = &mut self.senders {
                map.remove(c_id as u8);
            }
            proof {
                assert(cplan.take(1 + na as int) =~= cplan);
                assert(cls.take(m as int + 1) =~= cls.take(m as int).push(cls[m as int]));
                lemma_teardown_plan_cs_push(cls.take(m as int), cls[m as int]);
                assert(records_carry(
                    records@,
                    teardown_plan_drones(ds) + teardown_plan_cs(cls.take(m as int + 1)),
                ));
                lemma_cs_id_set_take(cls, m as int);
                assert(0 <= cls[m as int].id <= 255);
                assert((drone_id_set(ds) + cs_id_set(cls.take(m as int + 1))) =~= (drone_id_set(ds)
                    + cs_id_set(cls.take(m as int))).insert(cls[m as int].id as int));
                assert(map_cleared(
                    old(self).senders,
                    self.senders,
                    drone_id_set(ds) + cs_id_set(cls.take(m as int + 1)),
                ));
                assert(set_cleared(
                    old(self).channels,
                    self.channels,
                    drone_id_set(ds) + cs_id_set(cls.take(m as int + 1)),
                ));
            }
            m = m + 1;
        }
        proof {
            assert(cls.take(nc as int) =~= cls);
            assert(svs.take(0).map_values(|c: ClientServerStruct| c.id as int) =~= Seq::<
                int,
            >::empty());
            assert(cs_id_set(svs.take(0)) =~= Set::<int>::empty());
            assert((drone_id_set(ds) + cs_id_set(cls)) + cs_id_set(svs.take(0)) =~= drone_id_set(
                ds,
            ) + cs_id_set(cls));
            assert(svs.take(0) =~= Seq::<ClientServerStruct>::empty());
            assert(teardown_plan_cs(svs.take(0)) =~= Seq::<(u8, Command)>::empty());
            assert((teardown_plan_drones(ds) + teardown_plan_cs(cls)) + teardown_plan_cs(
                svs.take(0),
            ) =~= teardown_plan_drones(ds) + teardown_plan_cs(cls));
            assert(records_carry(
                records@,
                (teardown_plan_drones(ds) + teardown_plan_cs(cls)) + teardown_plan_cs(svs.take(0)),
            ));
        }

        let ns = self.servers.len();
        let mut m: usize = 0;
        while m < ns
            invariant
                old(self).wf(),
                ds == old(self).drones@,
                cls == old(self).clients@,
                svs == old(self).servers@,
                ns == svs.len(),
                0 <= m <= ns,
                self.id_to_type == old(self).id_to_type,
                self.edges == old(self).edges,
                self.drones == old(self).drones,
                self.clients == old(self).clients,
                self.servers == old(self).servers,
                records_carry(
                    records@,
                    (teardown_plan_drones(ds) + teardown_plan_cs(cls)) + teardown_plan_cs(
                        svs.take(m as int),
                    ),
                ),
                map_cleared(
                    old(self).senders,
                    self.senders,
                    (drone_id_set(ds) + cs_id_set(cls)) + cs_id_set(svs.take(m as int)),
                ),
                set_cleared(
                    old(self).channels,
                    self.channels,
                    (drone_id_set(ds) + cs_id_set(cls)) + cs_id_set(svs.take(m as int)),
                ),
            decreases ns - m,
        {
            let c_id = self.servers[m].id;
            let ghost base = (teardown_plan_drones(ds) + teardown_plan_cs(cls))
                + teardown_plan_cs(svs.take(m as int));
            let ghost cplan = teardown_plan_cs_node(svs[m as int]);
            let result = send_drone_command(&self.senders, c_id as u8, Command::Crash);
            records.push(SendRecord { target: c_id as u8, command: Command::Crash, result });
            proof {
                assert(cplan[0] == (c_id as u8, Command::Crash));
                assert(cplan.take(1) =~= seq![(c_id as u8, Command::Crash)]);
                assert(records_carry(records@, base + cplan.take(1)));
            }

            let na = self.servers[m].drones_adjacent.len();
            let mut j: usize = 0;
            while j < na
                invariant
                    old(self).wf(),
                    ds == old(self).drones@,
                    cls == old(self).clients@,
                    svs == old(self).servers@,
                    ns == svs.len(),
                    0 <= m < ns,
                    na == svs[m as int].drones_adjacent@.len(),
                    c_id == svs[m as int].id,
                    cplan == teardown_plan_cs_node(svs[m as int]),
                    base == (teardown_plan_drones(ds) + teardown_plan_cs(cls)) + teardown_plan_cs(
                        svs.take(m as int),
                    ),
                    0 <= j <= na,
                    self.id_to_type == old(self).id_to_type,
                    self.edges == old(self).edges,
                    self.drones == old(self).drones,
                    self.clients == old(self).clients,
                    self.servers == old(self).servers,
                    records_carry(records@, base + cplan.take(1 + j as int)),
                    map_cleared(
                        old(self).senders,
                        self.senders,
                        (drone_id_set(ds) + cs_id_set(cls)) + cs_id_set(svs.take(m as int)),
                    ),
                    set_cleared(
                        old(self).channels,
                        self.channels,
                        (drone_id_set(ds) + cs_id_set(cls)) + cs_id_set(svs.take(m as int)),
                    ),
                decreases na - j,
            {
                let adj_id = self.servers[m].drones_adjacent[j];
                let result = send_drone_command(
                    &self.senders,
                    adj_id as u8,
                    Command::RemoveSender(c_id as u8),
                );
                records.push(
                    SendRecord {
                        target: adj_id as u8,
                        command: Command::RemoveSender(c_id as u8),
                        result,
                    },
                );
                proof {
                    assert(cplan[1 + j as int] == (
                        adj_id as u8,
                        Command::RemoveSender(c_id as u8),
                    )) by {
                        assert(svs[m as int].drones_adjacent@.map_values(
                            |adj: i32| (adj as u8, Command::RemoveSender(svs[m as int].id as u8)),
                        )[j as int] == (adj_id as u8, Command::RemoveSender(c_id as u8)));
                    }
                    assert(cplan.take(1 + j as int + 1) =~= cplan.take(1 + j as int).push(
                        cplan[1 + j as int],
                    ));
                    assert(records_carry(records@, base + cplan.take(1 + j as int + 1)));
                }
                j = j + 1;
            }

            if let Option::Some(cs) = &mut self.channels {
                cs.remove(c_id as u8);
            }
            if let Option::Some(map) = &mut self.senders {
                map.remove(c_id as u8);
            }
            proof {
                assert(cplan.take(1 + na as int) =~= cplan);
                assert(svs.take(m as int + 1) =~= svs.take(m as int).push(svs[m as int]));
                lemma_teardown_plan_cs_push(svs.take(m as int), svs[m as int]);
                assert(records_carry(
                    records@,
                    (teardown_plan_drones(ds) + teardown_plan_cs(cls)) + teardown_plan_cs(
                        svs.take(m as int + 1),
                    ),
                ));
                lemma_cs_id_set_take(svs, m as int);
                assert(0 <= svs[m as int].id <= 255);
                assert(((drone_id_set(ds) + cs_id_set(cls)) + cs_id_set(svs.take(m as int + 1)))
                    =~= ((drone_id_set(ds) + cs_id_set(cls)) + cs_id_set(svs.take(m as int))).insert(
                    svs[m as int].id as int,
                ));
                assert(map_cleared(
                    old(self).senders,
                    self.senders,
                    (drone_id_set(ds) + cs_id_set(cls)) + cs_id_set(svs.take(m as int + 1)),
                ));
                assert(set_cleared(
                    old(self).channels,
                    self.channels,
                    (drone_id_set(ds) + cs_id_set(cls)) + cs_id_set(svs.take(m as int + 1)),
                ));
            }
            m = m + 1;
        }
        proof {
            assert(svs.take(ns as int) =~= svs);
            assert((drone_id_set(ds) + cs_id_set(cls)) + cs_id_set(svs) =~= all_node_ids(
                *old(self),
            ));
            assert((teardown_plan_drones(ds) + teardown_plan_cs(cls)) + teardown_plan_cs(svs)
                =~= teardown_plan(*old(self)));
            assert(records_carry(records@, teardown_plan(*old(self))));
        }
        records
    }
}


/// What a configuration must satisfy to be installed: the id and
/// neighbor-list rules, and the 8-bit id space's size bound.
pub open spec fn spec_config_valid(
    pd: Seq<ParsedDrone>,
    pc: Seq<ParsedClient>,
    ps: Seq<ParsedServer>,
) -> bool {
    config_wf(pd, pc, ps) && pd.len() + pc.len() + ps.len() <= 256
}

/// Whether an id list holds no repetitions.
fn ids_no_dup(v: &Vec<i32>) -> (ok: bool)
    ensures
        ok == no_dup(v@),
{
    let n = v.len();
    let mut i: usize = 0;
    while i < n
        invariant
            n == v@.len(),
            0 <= i <= n,
            forall|j1: int, j2: int| 0 <= j1 < j2 < i ==> v@[j1] != v@[j2],
        decreases n - i,
    {
        let mut j: usize = 0;
        while j < i
            invariant
                n == v@.len(),
                0 <= j <= i <= n,
                i < n,
                forall|j1: int, j2: int| 0 <= j1 < j2 < i ==> v@[j1] != v@[j2],
                forall|j1: int| 0 <= j1 < j ==> v@[j1] != v@[i as int],
            decreases i - j,
        {
            if v[j] == v[i] {
                return false;
            }
            j = j + 1;
        }
        i = i + 1;
    }
    true
}

/// Whether one node's declared neighbor list is admissible: no neighbor
/// repeated and the node not its own neighbor.
fn connected_ok(connected: &Vec<u8>, self_id: u8) -> (ok: bool)
    ensures
        ok == (no_dup(crate::populate::ids_i32(connected@)) && !connected@.contains(self_id)),
{
    let n = connected.len();
    let mut i: usize = 0;
    while i < n
        invariant
            n == connected@.len(),
            0 <= i <= n,
            forall|j1: int, j2: int| 0 <= j1 < j2 < i ==> connected@[j1] != connected@[j2],
            forall|j1: int| 0 <= j1 < i ==> connected@[j1] != self_id,
        decreases n - i,
    {
        if connected[i] == self_id {
            proof {
                assert(connected@.contains(self_id));
            }
            return false;
        }
        let mut j: usize = 0;
        while j < i
            invariant
                n == connected@.len(),
                0 <= j <= i <= n,
                i < n,
                forall|j1: int, j2: int| 0 <= j1 < j2 < i ==> connected@[j1] != connected@[j2],
                forall|j1: int| 0 <= j1 < j ==> connected@[j1] != connected@[i as int],
            decreases i - j,
        {
            if connected[j] == connected[i] {
                proof {
                    let ids = crate::populate::ids_i32(connected@);
                    assert(ids[j as int] == ids[i as int]);
                }
                return false;
            }
            j = j + 1;
        }
        i = i + 1;
    }
    proof {
        let ids = crate::populate::ids_i32(connected@);
        assert forall|j1: int, j2: int| 0 <= j1 < j2 < ids.len() implies ids[j1] != ids[j2] by {
            assert(connected@[j1] != connected@[j2]);
        }
        assert(!connected@.contains(self_id)) by {
            if connected@.contains(self_id) {
                let j = choose|j: int| 0 <= j < connected@.len() && connected@[j] == self_id;
            }
        }
    }
    true
}

/// Check a parsed configuration against the rules an installed topology
/// must satisfy: globally unique ids, admissible neighbor lists, and at
/// most 256 nodes in all — a bound the 8-bit id space forces anyway.
pub fn validate_config(
    parsed_drones: &Vec<ParsedDrone>,
    parsed_clients: &Vec<ParsedClient>,
    parsed_servers: &Vec<ParsedServer>,
) -> (ok: bool)
    ensures
        ok == spec_config_valid(parsed_drones@, parsed_clients@, parsed_servers@),
{
    let ghost pd = parsed_drones@;
    let ghost pc = parsed_clients@;
    let ghost ps = parsed_servers@;
    let nd = parsed_drones.len();
    let nc = parsed_clients.len();
    let ns = parsed_servers.len();
    if nd > 256 || nc > 256 || ns > 256 || nd + nc + ns > 256 {
        return false;
    }

    let mut ids: Vec<i32> = Vec::new();
    let mut i: usize = 0;
    while i < nd
        invariant
            nd == pd.len(),
            pd == parsed_drones@,
            0 <= i <= nd,
            ids@.len() == i,
            forall|j: int| 0 <= j < i ==> ids@[j] == crate::populate::drone_ids(pd)[j],
        decreases nd - i,
    {
        ids.push(parsed_drones[i].id as i32);
        i = i + 1;
    }
    let mut i: usize = 0;
    while i < nc
        invariant
            nd == pd.len(),
            nc == pc.len(),
            pd == parsed_drones@,
            pc == parsed_clients@,
            0 <= i <= nc,
            ids@.len() == nd + i,
            forall|j: int| 0 <= j < nd ==> ids@[j] == crate::populate::drone_ids(pd)[j],
            forall|j: int|
                0 <= j < i ==> ids@[nd + j] == crate::populate::client_ids(pc)[j],
        decreases nc - i,
    {
        ids.push(parsed_clients[i].id as i32);
        i = i + 1;
    }
    let mut i: usize = 0;
    while i < ns
        invariant
            nd == pd.len(),
            nc == pc.len(),
            ns == ps.len(),
            pd == parsed_drones@,
            pc == parsed_clients@,
            ps == parsed_servers@,
            0 <= i <= ns,
            ids@.len() == nd + nc + i,
            forall|j: int| 0 <= j < nd ==> ids@[j] == crate::populate::drone_ids(pd)[j],
            forall|j: int|
                0 <= j < nc ==> ids@[nd + j] == crate::populate::client_ids(pc)[j],
            forall|j: int|
                0 <= j < i ==> ids@[nd + nc + j] == crate::populate::server_ids(ps)[j],
        decreases ns - i,
    {
        ids.push(parsed_servers[i].id as i32);
        i = i + 1;
    }
    proof {
        assert(ids@ =~= crate::populate::all_ids(pd, pc, ps));
    }
    if !ids_no_dup(&ids) {
        return false;
    }

    let mut i: usize = 0;
    while i < nd
        invariant
            nd == pd.len(),
            pd == parsed_drones@,
            0 <= i <= nd,
            forall|j: int|
                0 <= j < i ==> no_dup(
                    crate::populate::ids_i32((#[trigger] pd[j]).connected_drone_ids@),
                ) && !pd[j].connected_drone_ids@.contains(pd[j].id),
        decreases nd - i,
    {
        if !connected_ok(&parsed_drones[i].connected_drone_ids, parsed_drones[i].id) {
            return false;
        }
        i = i + 1;
    }
    let mut i: usize = 0;
    while i < nc
        invariant
            nc == pc.len(),
            pc == parsed_clients@,
            0 <= i <= nc,
            forall|j: int|
                0 <= j < i ==> no_dup(
                    crate::populate::ids_i32((#[trigger] pc[j]).connected_drone_ids@),
                ) && !pc[j].connected_drone_ids@.contains(pc[j].id),
        decreases nc - i,
    {
        if !connected_ok(&parsed_clients[i].connected_drone_ids, parsed_clients[i].id) {
            return false;
        }
        i = i + 1;
    }
    let mut i: usize = 0;
    while i < ns
        invariant
            ns == ps.len(),
            ps == parsed_servers@,
            0 <= i <= ns,
            forall|j: int|
                0 <= j < i ==> no_dup(
                    crate::populate::ids_i32((#[trigger] ps[j]).connected_drone_ids@),
                ) && !ps[j].connected_drone_ids@.contains(ps[j].id),
        decreases ns - i,
    {
        if !connected_ok(&parsed_servers[i].connected_drone_ids, parsed_servers[i].id) {
            return false;
        }
        i = i + 1;
    }
    true
}

impl SimulationController {
    /// Build the whole control-plane state from a loaded configuration. A
    /// failed load, or a configuration that breaks the id or
    /// neighbor-list rules, yields the error and no state.
    pub fn new(loaded: Result<NewTopology, ConfigLoadError>) -> (out: Result<
        SimulationController,
        ConfigLoadError,
    >)
        ensures
            loaded matches Err(e) ==> out matches Err(e2) && e2 == e,
            loaded matches Ok(nt) ==> (if spec_config_valid(nt.drones@, nt.clients@, nt.servers@) {
                out matches Ok(c) && {
                    &&& c.wf()
                    &&& c.id_to_type@ == registry_spec(nt.drones@, nt.clients@, nt.servers@)
                    &&& built_drones(nt.drones@, c.drones@)
                    &&& built_clients(nt.clients@, c.clients@, nt.drones@)
                    &&& built_servers(nt.servers@, c.servers@, nt.drones@)
                    &&& built_edges(nt.drones@, nt.clients@, nt.servers@, c.edges@)
                    &&& c.senders == Some(nt.senders)
                    &&& c.channels == Some(nt.channels)
                }
            } else {
                out matches Err(e2) && e2 == ConfigLoadError::InvalidConfig
            }),
    {
        match loaded {
            Result::Err(e) => Err(e),
            Result::Ok(nt) => {
                if !validate_config(&nt.drones, &nt.clients, &nt.servers) {
                    return Err(ConfigLoadError::InvalidConfig);
                }
                let mut id_to_type = Registry::new();
                let mut edges: Vec<EdgeStruct> = Vec::new();
                let (drones, clients, servers) = populate_all(
                    &nt.drones,
                    &nt.servers,
                    &nt.clients,
                    &mut edges,
                    &mut id_to_type,
                );
                let controller = SimulationController {
                    id_to_type,
                    edges,
                    drones,
                    clients,
                    servers,
                    senders: Some(nt.senders),
                    channels: Some(nt.channels),
                };
                proof {
                    assert(controller.wf()) by {
                        assert(built_drones(nt.drones@, controller.drones@));
                        assert(built_clients(nt.clients@, controller.clients@, nt.drones@));
                        assert(built_servers(nt.servers@, controller.servers@, nt.drones@));
                    }
                }
                Ok(controller)
            },
        }
    }

    /// Replace the whole running topology. A failed or invalid load
    /// aborts the swap with the previously published topology and every
    /// command channel untouched. Otherwise the old network is quiesced,
    /// the registry, graph and channel collections are rebuilt from the
    /// new configuration, and the records of the teardown are handed
    /// back so the caller can see how the quiescing went.
    pub fn reconfigure(&mut self, loaded: Result<NewTopology, ConfigLoadError>) -> (out: (
        Vec<SendRecord>,
        Result<(), ConfigLoadError>,
    ))
        requires
            old(self).wf(),
        ensures
            final(self).wf(),
            loaded matches Err(e) ==> out.1 matches Err(e2) && e2 == e && *final(self) == *old(
                self,
            ) && out.0@.len() == 0,
            loaded matches Ok(nt) ==> (if spec_config_valid(nt.drones@, nt.clients@, nt.servers@) {
                &&& out.1 is Ok
                &&& records_carry(out.0@, teardown_plan(*old(self)))
                &&& final(self).id_to_type@ == registry_spec(nt.drones@, nt.clients@, nt.servers@)
                &&& built_drones(nt.drones@, final(self).drones@)
                &&& built_clients(nt.clients@, final(self).clients@, nt.drones@)
                &&& built_servers(nt.servers@, final(self).servers@, nt.drones@)
                &&& built_edges(nt.drones@, nt.clients@, nt.servers@, final(self).edges@)
                &&& final(self).senders == Some(nt.senders)
                &&& final(self).channels == Some(nt.channels)
            } else {
                out.1 matches Err(e2) && e2 == ConfigLoadError::InvalidConfig && *final(self)
                    == *old(self) && out.0@.len() == 0
            }),
    {
        match loaded {
            Result::Err(e) => (Vec::new(), Err(e)),
            Result::Ok(nt) => {
                if !validate_config(&nt.drones, &nt.clients, &nt.servers) {
                    return (Vec::new(), Err(ConfigLoadError::InvalidConfig));
                }
                let records = self.shutdown();
                self.id_to_type.clear();
                self.edges = Vec::new();
                let (drones, clients, servers) = populate_all(
                    &nt.drones,
                    &nt.servers,
                    &nt.clients,
                    &mut self.edges,
                    &mut self.id_to_type,
                );
                self.drones = drones;
                self.clients = clients;
                self.servers = servers;
                self.senders = Some(nt.senders);
                self.channels = Some(nt.channels);
                proof {
                    assert(final(self).wf()) by {
                        assert(built_drones(nt.drones@, final(self).drones@));
                        assert(built_clients(nt.clients@, final(self).clients@, nt.drones@));
                        assert(built_servers(nt.servers@, final(self).servers@, nt.drones@));
                    }
                }
                (records, Ok(()))
            },
        }
    }
}


/// Law: adding the link (a, b) between two unconnected drones and then
/// removing it restores the edge list exactly and restores every drone's
/// adjacent and not-adjacent sets to what they were before the add. The
/// dispatcher's channel state is deliberately not part of the round trip.
///
/// The hypotheses are the contracts of the add-link and remove-link
/// intents on a well-formed state in which the pair is not connected and
/// each drone of the pair holds the other as a not-adjacent candidate.
pub proof fn lemma_add_remove_edge_round_trip(
    d0: Seq<DroneStruct>,
    d1: Seq<DroneStruct>,
    d2: Seq<DroneStruct>,
    e0: Seq<EdgeStruct>,
    e1: Seq<EdgeStruct>,
    e2: Seq<EdgeStruct>,
    a: i32,
    b: i32,
    new_edge: EdgeStruct,
)
    requires
        a != b,
        edges_unique(e0),
        !spec_has_edge(e0, a as int, b as int),
        forall|m: int| 0 <= m < d0.len() ==> drone_wf(#[trigger] d0[m]),
        forall|m: int|
            0 <= m < d0.len() && (#[trigger] d0[m]).id == a ==> !d0[m].adjacent@.contains(b) && d0[
                m].not_adjacent@.contains(b),
        forall|m: int|
            0 <= m < d0.len() && (#[trigger] d0[m]).id == b ==> !d0[m].adjacent@.contains(a) && d0[
                m].not_adjacent@.contains(a),
        drones_add_adj(d0, d1, a, b),
        e1 == e0.push(new_edge),
        edge_matches(new_edge, a as int, b as int),
        drones_remove_adj(d1, d2, a, b),
        exists|k: int|
            0 <= k < e1.len() && edge_matches(e1[k], a as int, b as int) && (forall|j: int|
                0 <= j < k ==> !edge_matches(e1[j], a as int, b as int)) && e2 == e1.remove(k),
    ensures
        e2 == e0,
        d2.len() == d0.len(),
        forall|m: int|
            0 <= m < d0.len() ==> (#[trigger] d2[m]).id == d0[m].id && d2[m].adjacent@.to_set()
                == d0[m].adjacent@.to_set() && d2[m].not_adjacent@.to_set()
                == d0[m].not_adjacent@.to_set(),
{
    let k = choose|k: int|
        0 <= k < e1.len() && edge_matches(e1[k], a as int, b as int) && (forall|j: int|
            0 <= j < k ==> !edge_matches(e1[j], a as int, b as int)) && e2 == e1.remove(k);
    assert(k == e0.len()) by {
        if k < e0.len() {
            assert(e1[k] == e0[k]);
            assert(spec_has_edge(e0, a as int, b as int));
        }
    }
    assert(e2 =~= e0);

    assert forall|m: int|
        0 <= m < d0.len() implies (#[trigger] d2[m]).id == d0[m].id && d2[m].adjacent@.to_set()
        == d0[m].adjacent@.to_set() && d2[m].not_adjacent@.to_set()
        == d0[m].not_adjacent@.to_set() by {
        assert(drone_add_effect(d0[m], d1[m], a, b));
        assert(drone_remove_effect(d1[m], d2[m], a, b));
        if d0[m].id == a {
            assert(d1[m].adjacent@.to_set().contains(b));
            assert(d1[m].adjacent@.contains(b));
            assert(d2[m].adjacent@.to_set() =~= d0[m].adjacent@.to_set()) by {
                assert(d2[m].adjacent@.to_set() == d0[m].adjacent@.to_set().insert(b).remove(b));
                assert(!d0[m].adjacent@.to_set().contains(b));
            }
            assert(d2[m].not_adjacent@.to_set() =~= d0[m].not_adjacent@.to_set()) by {
                assert(d2[m].not_adjacent@.to_set() == d0[m].not_adjacent@.to_set().remove(
                    b,
                ).insert(b));
                assert(d0[m].not_adjacent@.to_set().contains(b));
            }
        } else if d0[m].id == b {
            assert(d1[m].adjacent@.to_set().contains(a));
            assert(d1[m].adjacent@.contains(a));
            assert(d2[m].adjacent@.to_set() =~= d0[m].adjacent@.to_set()) by {
                assert(d2[m].adjacent@.to_set() == d0[m].adjacent@.to_set().insert(a).remove(a));
                assert(!d0[m].adjacent@.to_set().contains(a));
            }
            assert(d2[m].not_adjacent@.to_set() =~= d0[m].not_adjacent@.to_set()) by {
                assert(d2[m].not_adjacent@.to_set() == d0[m].not_adjacent@.to_set().remove(
                    a,
                ).insert(a));
                assert(d0[m].not_adjacent@.to_set().contains(a));
            }
        }
    }
}


/// Law: in a well-formed state no node holds an id in both its adjacent
/// and its not-adjacent list. Every operator intent keeps the state
/// well-formed, so this holds at all times between intents.
pub proof fn lemma_adjacent_disjoint(st: SimulationController, y: i32)
    requires
        st.wf(),
    ensures
        forall|i: int|
            0 <= i < st.drones@.len() ==> !((#[trigger] st.drones@[i]).adjacent@.contains(y)
                && st.drones@[i].not_adjacent@.contains(y)),
        forall|i: int|
            0 <= i < st.clients@.len() ==> !((#[trigger] st.clients@[i]).drones_adjacent@.contains(
                y,
            ) && st.clients@[i].drones_not_adjacent@.contains(y)),
        forall|i: int|
            0 <= i < st.servers@.len() ==> !((#[trigger] st.servers@[i]).drones_adjacent@.contains(
                y,
            ) && st.servers@[i].drones_not_adjacent@.contains(y)),
{
}

} // verus!
