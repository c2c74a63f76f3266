//! Event ingestion decisions: classify the events the running network
//! produces, downsample the high-frequency categories, and resolve the
//! endpoints of each forwarded event for the observer.
//!
//! The packet model below carries exactly what these decisions read: the
//! route with its hop index, the packet kind, a negative acknowledgement's
//! reason, and a flood request's path trace as a list of node ids. Payloads
//! and session bookkeeping never influence ingestion and are left out.

use vstd::prelude::*;

use crate::registry::spec_node_type;
use crate::registry::get_node_type;
use crate::registry::NodeType;
use crate::registry::Registry;

verus! {

/// Why a negative acknowledgement was produced.
#[derive(Clone, Copy, PartialEq, Eq, Structural, Debug)]
pub enum NackType {
    ErrorInRouting(u8),
    DestinationIsDrone,
    Dropped,
    UnexpectedRecipient(u8),
}

/// A negative acknowledgement.
#[derive(Clone, Copy, PartialEq, Eq, Structural, Debug)]
pub struct Nack {
    pub nack_type: NackType,
}

/// A flood request's path trace: the ids of the nodes the request has
/// passed through, in order.
#[derive(Clone, PartialEq, Eq, Debug)]
pub struct FloodRequest {
    pub path_trace: Vec<u8>,
}

/// The source route a packet carries: the full list of hops and the index
/// of the hop the packet currently stands at.
#[derive(Clone, PartialEq, Eq, Debug)]
pub struct SourceRoutingHeader {
    pub hop_index: usize,
    pub hops: Vec<u8>,
}

/// The kind of a packet, as far as ingestion reads it.
#[derive(Clone, PartialEq, Eq, Debug)]
pub enum PacketType {
    MsgFragment,
    Ack,
    Nack(Nack),
    FloodRequest(FloodRequest),
    FloodResponse,
}

/// A packet as reported by the running network.
#[derive(Clone, PartialEq, Eq, Debug)]
pub struct Packet {
    pub pack_type: PacketType,
    pub routing_header: SourceRoutingHeader,
}

/// An event produced by the running network.
#[derive(Clone, PartialEq, Eq, Debug)]
pub enum DroneEvent {
    PacketSent(Packet),
    PacketDropped(Packet),
    ControllerShortcut(Packet),
}

/// A display event for the observer's message log: the two endpoints with
/// their kind codes and positions, and the event category code.
#[derive(Clone, Copy, PartialEq, Eq, Structural, Debug)]
pub struct MessageStruct {
    pub id1: i32,
    pub id2: i32,
    pub msg_type: i32,
    pub node_type1: i32,
    pub node_type2: i32,
    pub index1: i32,
    pub index2: i32,
}

/// Category code for a relayed message fragment.
pub const MSG_TYPE_FRAGMENT: i32 = 0;

/// Category code for an acknowledgement.
pub const MSG_TYPE_ACK: i32 = 1;

/// Category code for a negative acknowledgement other than one that
/// duplicates a drop.
pub const MSG_TYPE_NACK: i32 = 2;

/// Category code for a flood request.
pub const MSG_TYPE_FLOOD_REQUEST: i32 = 3;

/// Category code for a flood response.
pub const MSG_TYPE_FLOOD_RESPONSE: i32 = 4;

/// Category code for a dropped packet.
pub const MSG_TYPE_DROPPED: i32 = 5;

/// Category code for a packet delivered through the controller shortcut.
pub const MSG_TYPE_SHORTCUT: i32 = 6;

/// One in this many relayed fragments is forwarded to the observer.
pub const FRAGMENT_MODULUS: u32 = 1000;

/// One in this many acknowledgements is forwarded.
pub const ACK_MODULUS: u32 = 1000;

/// One in this many negative acknowledgements is forwarded.
pub const NACK_MODULUS: u32 = 1000;

/// One in this many dropped packets is forwarded.
pub const DROPPED_MODULUS: u32 = 10000;

/// One downsampling counter per rate-limited event category.
#[derive(Clone, Copy, PartialEq, Eq, Structural, Debug)]
pub struct DownsampleState {
    pub msg_fragment: u32,
    pub ack: u32,
    pub nack: u32,
    pub dropped: u32,
}

/// Every counter stands strictly below its modulus.
pub open spec fn downsample_wf(s: DownsampleState) -> bool {
    &&& s.msg_fragment < FRAGMENT_MODULUS
    &&& s.ack < ACK_MODULUS
    &&& s.nack < NACK_MODULUS
    &&& s.dropped < DROPPED_MODULUS
}

impl DownsampleState {
    /// All counters at zero, as at every topology load.
    pub fn new() -> (s: DownsampleState)
        ensures
            s == (DownsampleState { msg_fragment: 0u32, ack: 0u32, nack: 0u32, dropped: 0u32 }),
            downsample_wf(s),
    {
        DownsampleState { msg_fragment: 0, ack: 0, nack: 0, dropped: 0 }
    }
}

/// Whether stepping a counter standing at `c` fires the modulus `m`.
pub open spec fn fires(c: u32, m: u32) -> bool {
    c + 1 == m
}

/// The counter after one step: back to zero when it fires.
pub open spec fn next_counter(c: u32, m: u32) -> u32 {
    if c + 1 == m {
        0u32
    } else {
        (c + 1) as u32
    }
}

/// Advance one downsampling counter and report whether it fired; the
/// counter resets to zero when it fires.
pub fn downsample_step(counter: &mut u32, modulus: u32) -> (fire: bool)
    requires
        modulus >= 1,
        *old(counter) < modulus,
    ensures
        fire == fires(*old(counter), modulus),
        *final(counter) == next_counter(*old(counter), modulus),
        *final(counter) < modulus,
{
    *counter = *counter + 1;
    proof {
        if *counter < modulus {
            vstd::arithmetic::div_mod::lemma_small_mod(*counter as nat, modulus as nat);
        } else {
            vstd::arithmetic::div_mod::lemma_mod_self_0(modulus as int);
        }
    }
    if *counter % modulus == 0 {
        *counter = 0;
        true
    } else {
        false
    }
}

/// The endpoints a display event reports for this packet: for a dropped
/// packet the dropping node first and the previous hop second; for a flood
/// request the last two entries of its path trace; for everything else the
/// previous hop and the current hop. `None` when the route or trace is too
/// short to name two endpoints — such an event is dropped, never forwarded
/// with placeholder endpoints.
pub open spec fn spec_endpoints(p: Packet, packet_dropped: bool) -> Option<(u8, u8)> {
    if packet_dropped {
        if 1 <= p.routing_header.hop_index < p.routing_header.hops@.len() {
            Some(
                (
                    p.routing_header.hops@[p.routing_header.hop_index as int],
                    p.routing_header.hops@[p.routing_header.hop_index - 1],
                ),
            )
        } else {
            None
        }
    } else {
        match p.pack_type {
            PacketType::FloodRequest(f) => {
                if f.path_trace@.len() >= 2 {
                    Some(
                        (
                            f.path_trace@[f.path_trace@.len() - 2],
                            f.path_trace@[f.path_trace@.len() - 1],
                        ),
                    )
                } else {
                    None
                }
            },
            _ => {
                if 1 <= p.routing_header.hop_index < p.routing_header.hops@.len() {
                    Some(
                        (
                            p.routing_header.hops@[p.routing_header.hop_index - 1],
                            p.routing_header.hops@[p.routing_header.hop_index as int],
                        ),
                    )
                } else {
                    None
                }
            },
        }
    }
}

/// Pick the two endpoint ids a display event for this packet reports.
pub fn message_endpoints(p: &Packet, packet_dropped: bool) -> (r: Option<(u8, u8)>)
    ensures
        r == spec_endpoints(*p, packet_dropped),
{
    let hop_index = p.routing_header.hop_index;
    let hops_len = p.routing_header.hops.len();
    if packet_dropped {
        if 1 <= hop_index && hop_index < hops_len {
            Some((p.routing_header.hops[hop_index], p.routing_header.hops[hop_index - 1]))
        } else {
            None
        }
    } else {
        match &p.pack_type {
            PacketType::FloodRequest(f) => {
                let n = f.path_trace.len();
                if n >= 2 {
                    Some((f.path_trace[n - 2], f.path_trace[n - 1]))
                } else {
                    None
                }
            },
            _ => {
                if 1 <= hop_index && hop_index < hops_len {
                    Some((p.routing_header.hops[hop_index - 1], p.routing_header.hops[hop_index]))
                } else {
                    None
                }
            },
        }
    }
}

/// The display event for endpoints (id1, id2) and a category code, or
/// `None` when either endpoint has no registry entry: the observer never
/// receives an event referencing an unknown node.
pub open spec fn spec_resolve(
    reg: Map<int, (NodeType, int)>,
    id1: int,
    id2: int,
    msg_type: i32,
) -> Option<MessageStruct> {
    let kp1 = spec_node_type(reg, id1);
    let kp2 = spec_node_type(reg, id2);
    if kp1.0 == -1 || kp2.0 == -1 {
        None
    } else {
        Some(
            MessageStruct {
                id1: id1 as i32,
                id2: id2 as i32,
                msg_type,
                node_type1: kp1.0 as i32,
                node_type2: kp2.0 as i32,
                index1: kp1.1 as i32,
                index2: kp2.1 as i32,
            },
        )
    }
}

/// Resolve both endpoints through the registry and build the display
/// event, or report that one of them is unknown.
pub fn resolve_message(reg: &Registry, id1: u8, id2: u8, msg_type: i32) -> (r: Option<
    MessageStruct,
>)
    ensures
        r == spec_resolve(reg@, id1 as int, id2 as int, msg_type),
{
    let (ns1, index1) = get_node_type(id1 as i32, reg);
    let (ns2, index2) = get_node_type(id2 as i32, reg);
    if ns1 == -1 || ns2 == -1 {
        None
    } else {
        Some(
            MessageStruct {
                id1: id1 as i32,
                id2: id2 as i32,
                msg_type,
                node_type1: ns1,
                node_type2: ns2,
                index1,
                index2,
            },
        )
    }
}


/// What one event produces: possibly a display event for the observer's
/// message log, and possibly a destination for shortcut delivery.
#[derive(Clone, Copy, PartialEq, Eq, Debug)]
pub struct EventOutput {
    pub message: Option<MessageStruct>,
    pub shortcut_dest: Option<u8>,
}

/// The whole ingestion policy for one event: which counter it steps,
/// whether it is forwarded, which endpoints and category code its display
/// event carries, and whether it asks for shortcut delivery.
///
/// A negative acknowledgement with the dropped-in-transit reason is
/// suppressed entirely: it duplicates the dropped-packet event. Relayed
/// flood requests are forwarded only when their trace names two
/// endpoints; flood responses are always forwarded. A shortcut event is
/// always forwarded and additionally asks for direct delivery to the last
/// hop of its route. An event whose endpoints are missing from the
/// registry produces no display event.
pub open spec fn spec_process(
    state: DownsampleState,
    ev: DroneEvent,
    reg: Map<int, (NodeType, int)>,
) -> (DownsampleState, Option<MessageStruct>, Option<u8>) {
    match ev {
        DroneEvent::PacketDropped(p) => {
            let state2 = DownsampleState {
                dropped: next_counter(state.dropped, DROPPED_MODULUS),
                ..state
            };
            let message = if fires(state.dropped, DROPPED_MODULUS) {
                match spec_endpoints(p, true) {
                    Some(pair) => spec_resolve(reg, pair.0 as int, pair.1 as int, MSG_TYPE_DROPPED),
                    None => None,
                }
            } else {
                None
            };
            (state2, message, None)
        },
        DroneEvent::ControllerShortcut(p) => {
            let dest = if p.routing_header.hops@.len() > 0 {
                Some(p.routing_header.hops@.last())
            } else {
                None
            };
            let message = match spec_endpoints(p, false) {
                Some(pair) => spec_resolve(reg, pair.0 as int, pair.1 as int, MSG_TYPE_SHORTCUT),
                None => None,
            };
            (state, message, dest)
        },
        DroneEvent::PacketSent(p) => match p.pack_type {
            PacketType::MsgFragment => {
                let state2 = DownsampleState {
                    msg_fragment: next_counter(state.msg_fragment, FRAGMENT_MODULUS),
                    ..state
                };
                let message = if fires(state.msg_fragment, FRAGMENT_MODULUS) {
                    match spec_endpoints(p, false) {
                        Some(pair) => spec_resolve(
                            reg,
                            pair.0 as int,
                            pair.1 as int,
                            MSG_TYPE_FRAGMENT,
                        ),
                        None => None,
                    }
                } else {
                    None
                };
                (state2, message, None)
            },
            PacketType::Ack => {
                let state2 = DownsampleState { ack: next_counter(state.ack, ACK_MODULUS), ..state };
                let message = if fires(state.ack, ACK_MODULUS) {
                    match spec_endpoints(p, false) {
                        Some(pair) => spec_resolve(reg, pair.0 as int, pair.1 as int, MSG_TYPE_ACK),
                        None => None,
                    }
                } else {
                    None
                };
                (state2, message, None)
            },
            PacketType::Nack(nack) => {
                if nack.nack_type is Dropped {
                    (state, None, None)
                } else {
                    let state2 = DownsampleState {
                        nack: next_counter(state.nack, NACK_MODULUS),
                        ..state
                    };
                    let message = if fires(state.nack, NACK_MODULUS) {
                        match spec_endpoints(p, false) {
                            Some(pair) => spec_resolve(
                                reg,
                                pair.0 as int,
                                pair.1 as int,
                                MSG_TYPE_NACK,
                            ),
                            None => None,
                        }
                    } else {
                        None
                    };
                    (state2, message, None)
                }
            },
            PacketType::FloodRequest(ref f) => {
                let message = if f.path_trace@.len() >= 2 {
                    match spec_endpoints(p, false) {
                        Some(pair) => spec_resolve(
                            reg,
                            pair.0 as int,
                            pair.1 as int,
                            MSG_TYPE_FLOOD_REQUEST,
                        ),
                        None => None,
                    }
                } else {
                    None
                };
                (state, message, None)
            },
            PacketType::FloodResponse => {
                let message = match spec_endpoints(p, false) {
                    Some(pair) => spec_resolve(
                        reg,
                        pair.0 as int,
                        pair.1 as int,
                        MSG_TYPE_FLOOD_RESPONSE,
                    ),
                    None => None,
                };
                (state, message, None)
            },
        },
    }
}

/// Apply the ingestion policy to one event: step the category's counter,
/// and hand back the display event and shortcut destination it asks for.
pub fn process_event(state: &mut DownsampleState, ev: &DroneEvent, reg: &Registry) -> (out:
    EventOutput)
    requires
        downsample_wf(*old(state)),
    ensures
        downsample_wf(*final(state)),
        (*final(state), out.message, out.shortcut_dest) == spec_process(*old(state), *ev, reg@),
{
    match ev {
        DroneEvent::PacketDropped(p) => {
            let fire = downsample_step(&mut state.dropped, DROPPED_MODULUS);
            let message = if fire {
                match message_endpoints(p, true) {
                    Some((id1, id2)) => resolve_message(reg, id1, id2, MSG_TYPE_DROPPED),
                    None => None,
                }
            } else {
                None
            };
            EventOutput { message, shortcut_dest: None }
        },
        DroneEvent::ControllerShortcut(p) => {
            let hops_len = p.routing_header.hops.len();
            let dest = if hops_len > 0 {
                Some(p.routing_header.hops[hops_len - 1])
            } else {
                None
            };
            let message = match message_endpoints(p, false) {
                Some((id1, id2)) => resolve_message(reg, id1, id2, MSG_TYPE_SHORTCUT),
                None => None,
            };
            EventOutput { message, shortcut_dest: dest }
        },
        DroneEvent::PacketSent(p) => match &p.pack_type {
            PacketType::MsgFragment => {
                let fire = downsample_step(&mut state.msg_fragment, FRAGMENT_MODULUS);
                let message = if fire {
                    match message_endpoints(p, false) {
                        Some((id1, id2)) => resolve_message(reg, id1, id2, MSG_TYPE_FRAGMENT),
                        None => None,
                    }
                } else {
                    None
                };
                EventOutput { message, shortcut_dest: None }
            },
            PacketType::Ack => {
                let fire = downsample_step(&mut state.ack, ACK_MODULUS);
                let message = if fire {
                    match message_endpoints(p, false) {
                        Some((id1, id2)) => resolve_message(reg, id1, id2, MSG_TYPE_ACK),
                        None => None,
                    }
                } else {
                    None
                };
                EventOutput { message, shortcut_dest: None }
            },
            PacketType::Nack(nack) => match nack.nack_type {
                NackType::Dropped => EventOutput { message: None, shortcut_dest: None },
                _ => {
                    let fire = downsample_step(&mut state.nack, NACK_MODULUS);
                    let message = if fire {
                        match message_endpoints(p, false) {
                            Some((id1, id2)) => resolve_message(reg, id1, id2, MSG_TYPE_NACK),
                            None => None,
                        }
                    } else {
                        None
                    };
                    EventOutput { message, shortcut_dest: None }
                },
            },
            PacketType::FloodRequest(f) => {
                let message = if f.path_trace.len() >= 2 {
                    match message_endpoints(p, false) {
                        Some((id1, id2)) => resolve_message(reg, id1, id2, MSG_TYPE_FLOOD_REQUEST),
                        None => None,
                    }
                } else {
                    None
                };
                EventOutput { message, shortcut_dest: None }
            },
            PacketType::FloodResponse => {
                let message = match message_endpoints(p, false) {
                    Some((id1, id2)) => resolve_message(reg, id1, id2, MSG_TYPE_FLOOD_RESPONSE),
                    None => None,
                };
                EventOutput { message, shortcut_dest: None }
            },
        },
    }
}

/// The downsampling state and the display events published after a whole
/// stream of events, in order.
pub open spec fn run_events(
    state: DownsampleState,
    evs: Seq<DroneEvent>,
    reg: Map<int, (NodeType, int)>,
) -> (DownsampleState, Seq<MessageStruct>)
    decreases evs.len(),
{
    if evs.len() == 0 {
        (state, Seq::empty())
    } else {
        let step = spec_process(state, evs[0], reg);
        let rest = run_events(step.0, evs.drop_first(), reg);
        (
            rest.0,
            match step.1 {
                Some(m) => seq![m] + rest.1,
                None => rest.1,
            },
        )
    }
}

/// A relayed message fragment whose endpoints are (a, b) and resolve in
/// the registry.
pub open spec fn fragment_relay_for(
    ev: DroneEvent,
    reg: Map<int, (NodeType, int)>,
    a: u8,
    b: u8,
) -> bool {
    &&& ev matches DroneEvent::PacketSent(p)
    &&& ev->PacketSent_0.pack_type is MsgFragment
    &&& spec_endpoints(ev->PacketSent_0, false) == Some((a, b))
    &&& spec_resolve(reg, a as int, b as int, MSG_TYPE_FRAGMENT) is Some
}

/// Running a stream of fragment-relay events for one pair publishes one
/// display event per `FRAGMENT_MODULUS` events, counted from wherever the
/// fragment counter stands, and every published event is the pair's
/// fragment display event.
proof fn lemma_fragment_run(
    state: DownsampleState,
    evs: Seq<DroneEvent>,
    reg: Map<int, (NodeType, int)>,
    a: u8,
    b: u8,
)
    requires
        downsample_wf(state),
        forall|k: int| 0 <= k < evs.len() ==> fragment_relay_for(#[trigger] evs[k], reg, a, b),
    ensures
        run_events(state, evs, reg).1.len() == (state.msg_fragment + evs.len()) / (
        FRAGMENT_MODULUS as int),
        forall|j: int|
            0 <= j < run_events(state, evs, reg).1.len() ==> #[trigger] run_events(
                state,
                evs,
                reg,
            ).1[j] == spec_resolve(reg, a as int, b as int, MSG_TYPE_FRAGMENT)->Some_0,
    decreases evs.len(),
{
    if evs.len() > 0 {
        assert(fragment_relay_for(evs[0], reg, a, b));
        let step = spec_process(state, evs[0], reg);
        lemma_fragment_run(step.0, evs.drop_first(), reg, a, b);
        let rest = run_events(step.0, evs.drop_first(), reg);
        if fires(state.msg_fragment, FRAGMENT_MODULUS) {
            assert(step.1 == spec_resolve(reg, a as int, b as int, MSG_TYPE_FRAGMENT));
            assert(step.0.msg_fragment == 0);
            assert(rest.1.len() == (evs.len() - 1) / (FRAGMENT_MODULUS as int));
            assert((state.msg_fragment + evs.len()) / (FRAGMENT_MODULUS as int) == 1 + (evs.len()
                - 1) / (FRAGMENT_MODULUS as int)) by {
                vstd::arithmetic::div_mod::lemma_div_plus_one(
                    evs.len() - 1,
                    FRAGMENT_MODULUS as int,
                );
            }
        } else {
            assert(step.1 is None);
            assert(step.0.msg_fragment == state.msg_fragment + 1);
        }
    }
}

/// Law: an event stream of exactly one thousand fragment-relay events for
/// the same pair, starting from fresh counters and with nothing
/// interleaved, publishes exactly one display event — the pair's fragment
/// display event.
pub proof fn lemma_fragment_downsampling(
    evs: Seq<DroneEvent>,
    reg: Map<int, (NodeType, int)>,
    a: u8,
    b: u8,
)
    requires
        evs.len() == FRAGMENT_MODULUS,
        forall|k: int| 0 <= k < evs.len() ==> fragment_relay_for(#[trigger] evs[k], reg, a, b),
    ensures
        run_events(DownsampleState { msg_fragment: 0u32, ack: 0u32, nack: 0u32, dropped: 0u32 },
            evs, reg).1 =~= seq![
            spec_resolve(reg, a as int, b as int, MSG_TYPE_FRAGMENT)->Some_0,
        ],
{
    let s0 = DownsampleState { msg_fragment: 0u32, ack: 0u32, nack: 0u32, dropped: 0u32 };
    lemma_fragment_run(s0, evs, reg, a, b);
}

/// Law: a negative acknowledgement with the dropped-in-transit reason is
/// suppressed — it publishes nothing and leaves every counter unchanged —
/// so of a dropped-packet event and the negative acknowledgement that
/// describes the same transfer, only the dropped-packet event is ever
/// published.
pub proof fn lemma_nack_dropped_suppressed(
    state: DownsampleState,
    nack_packet: Packet,
    dropped_packet: Packet,
    reg: Map<int, (NodeType, int)>,
)
    requires
        nack_packet.pack_type matches PacketType::Nack(n) && n.nack_type is Dropped,
    ensures
        spec_process(state, DroneEvent::PacketSent(nack_packet), reg) == (
            state,
            Option::<MessageStruct>::None,
            Option::<u8>::None,
        ),
        run_events(
            state,
            seq![
                DroneEvent::PacketSent(nack_packet),
                DroneEvent::PacketDropped(dropped_packet),
            ],
            reg,
        ).1 =~= run_events(state, seq![DroneEvent::PacketDropped(dropped_packet)], reg).1,
{
    let pair = seq![
        DroneEvent::PacketSent(nack_packet),
        DroneEvent::PacketDropped(dropped_packet),
    ];
    assert(pair[0] == DroneEvent::PacketSent(nack_packet));
    assert(pair.drop_first() =~= seq![DroneEvent::PacketDropped(dropped_packet)]);
    assert(spec_process(state, pair[0], reg).0 == state);
    assert(spec_process(state, pair[0], reg).1 is None);
}

} // verus!
