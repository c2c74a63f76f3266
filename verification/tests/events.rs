//! Event classification, downsampling and endpoint resolution.

use sim_controller::events::FloodRequest;
use sim_controller::events::Nack;
use sim_controller::events::NackType;
use sim_controller::events::SourceRoutingHeader;
use sim_controller::process_event;
use sim_controller::DownsampleState;
use sim_controller::DroneEvent;
use sim_controller::NodeType;
use sim_controller::Packet;
use sim_controller::PacketType;
use sim_controller::Registry;

fn registry_with(ids: &[(i32, NodeType, i32)]) -> Registry {
    let mut registry = Registry::new();
    for (id, kind, position) in ids {
        registry.insert(*id, *kind, *position);
    }
    registry
}

fn small_registry() -> Registry {
    registry_with(&[
        (1, NodeType::Drone, 0),
        (2, NodeType::Drone, 1),
        (3, NodeType::Drone, 2),
        (20, NodeType::Client, 0),
    ])
}

fn packet(kind: PacketType, hops: &[u8], hop_index: usize) -> Packet {
    Packet {
        pack_type: kind,
        routing_header: SourceRoutingHeader { hop_index, hops: hops.to_vec() },
    }
}

fn fragment_sent() -> DroneEvent {
    DroneEvent::PacketSent(packet(PacketType::MsgFragment, &[1, 2], 1))
}

#[test]
fn thousand_fragments_publish_exactly_one_message() {
    // One thousand fragment-relay events for the pair (1, 2), nothing
    // interleaved: the modulus fires exactly once, at the thousandth.
    let registry = small_registry();
    let mut state = DownsampleState::new();
    let mut published = Vec::new();
    for k in 0..1000 {
        let out = process_event(&mut state, &fragment_sent(), &registry);
        if let Some(message) = out.message {
            published.push((k, message));
        }
    }
    assert_eq!(published.len(), 1);
    let (when, message) = published[0];
    assert_eq!(when, 999);
    assert_eq!((message.id1, message.id2), (1, 2));
    assert_eq!(message.msg_type, 0);
    assert_eq!((message.node_type1, message.node_type2), (0, 0));
    assert_eq!((message.index1, message.index2), (0, 1));
    // The counter is back at zero: the next thousand behave the same.
    assert_eq!(state.msg_fragment, 0);
}

#[test]
fn acks_are_downsampled_too() {
    let registry = small_registry();
    let mut state = DownsampleState::new();
    let mut count = 0;
    for _ in 0..2000 {
        let ev = DroneEvent::PacketSent(packet(PacketType::Ack, &[2, 1], 1));
        if process_event(&mut state, &ev, &registry).message.is_some() {
            count += 1;
        }
    }
    assert_eq!(count, 2);
}

#[test]
fn nack_dropped_is_suppressed() {
    // A negative acknowledgement with the dropped-in-transit reason never
    // reaches the observer and leaves every counter unchanged: of it and
    // the dropped-packet event for the same transfer, only the latter is
    // ever published.
    let registry = small_registry();
    let mut state = DownsampleState::new();
    let before = state;
    let nack = DroneEvent::PacketSent(packet(
        PacketType::Nack(Nack { nack_type: NackType::Dropped }),
        &[2, 1],
        1,
    ));
    let out = process_event(&mut state, &nack, &registry);
    assert_eq!(out.message, None);
    assert_eq!(out.shortcut_dest, None);
    assert_eq!(state, before);
}

#[test]
fn other_nacks_are_counted() {
    let registry = small_registry();
    let mut state = DownsampleState::new();
    let nack = DroneEvent::PacketSent(packet(
        PacketType::Nack(Nack { nack_type: NackType::DestinationIsDrone }),
        &[2, 1],
        1,
    ));
    let mut count = 0;
    for _ in 0..1000 {
        if process_event(&mut state, &nack, &registry).message.is_some() {
            count += 1;
        }
    }
    assert_eq!(count, 1);
    assert_eq!(state.nack, 0);
}

#[test]
fn dropped_packets_fire_once_in_ten_thousand() {
    let registry = small_registry();
    let mut state = DownsampleState::new();
    let dropped = DroneEvent::PacketDropped(packet(PacketType::MsgFragment, &[1, 2], 1));
    let mut published = Vec::new();
    for _ in 0..10000 {
        if let Some(message) = process_event(&mut state, &dropped, &registry).message {
            published.push(message);
        }
    }
    assert_eq!(published.len(), 1);
    // For a dropped packet the dropping node comes first.
    assert_eq!((published[0].id1, published[0].id2), (2, 1));
    assert_eq!(published[0].msg_type, 5);
}

#[test]
fn flood_request_is_always_forwarded() {
    let registry = small_registry();
    let mut state = DownsampleState::new();
    let flood = DroneEvent::PacketSent(packet(
        PacketType::FloodRequest(FloodRequest { path_trace: vec![1, 2, 3] }),
        &[],
        0,
    ));
    let out = process_event(&mut state, &flood, &registry);
    let message = out.message.unwrap();
    // The last two entries of the path trace are the endpoints.
    assert_eq!((message.id1, message.id2), (2, 3));
    assert_eq!(message.msg_type, 3);

    // A trace too short to name two endpoints is dropped.
    let short = DroneEvent::PacketSent(packet(
        PacketType::FloodRequest(FloodRequest { path_trace: vec![1] }),
        &[],
        0,
    ));
    assert_eq!(process_event(&mut state, &short, &registry).message, None);
}

#[test]
fn flood_response_is_always_forwarded() {
    let registry = small_registry();
    let mut state = DownsampleState::new();
    let flood = DroneEvent::PacketSent(packet(PacketType::FloodResponse, &[3, 2, 1], 2));
    let out = process_event(&mut state, &flood, &registry);
    let message = out.message.unwrap();
    assert_eq!((message.id1, message.id2), (2, 1));
    assert_eq!(message.msg_type, 4);
}

#[test]
fn malformed_route_is_dropped() {
    let registry = small_registry();
    let mut state = DownsampleState::new();
    // A hop index of zero has no previous hop to report.
    let ev = DroneEvent::PacketSent(packet(PacketType::FloodResponse, &[1, 2], 0));
    assert_eq!(process_event(&mut state, &ev, &registry).message, None);
}

#[test]
fn unresolvable_endpoints_are_never_forwarded() {
    // Node 9 has no registry entry: the event is dropped rather than
    // forwarded with placeholder endpoints.
    let registry = small_registry();
    let mut state = DownsampleState::new();
    let ev = DroneEvent::PacketSent(packet(PacketType::FloodResponse, &[9, 1], 1));
    assert_eq!(process_event(&mut state, &ev, &registry).message, None);
}

#[test]
fn shortcut_is_forwarded_and_delivered() {
    let registry = small_registry();
    let mut state = DownsampleState::new();
    let ev = DroneEvent::ControllerShortcut(packet(PacketType::Ack, &[1, 2, 20], 1));
    let out = process_event(&mut state, &ev, &registry);
    // Delivered directly to the destination, the last hop of the route.
    assert_eq!(out.shortcut_dest, Some(20));
    let message = out.message.unwrap();
    assert_eq!((message.id1, message.id2), (1, 2));
    assert_eq!(message.msg_type, 6);
}

#[test]
fn shortcut_flood_request_is_forwarded() {
    // A controller shortcut is always forwarded, whatever it carries: the
    // display endpoints come from the flood trace, the delivery
    // destination from the route.
    let registry = small_registry();
    let mut state = DownsampleState::new();
    let ev = DroneEvent::ControllerShortcut(packet(
        PacketType::FloodRequest(FloodRequest { path_trace: vec![1, 2] }),
        &[1, 2, 20],
        1,
    ));
    let out = process_event(&mut state, &ev, &registry);
    let message = out.message.unwrap();
    assert_eq!((message.id1, message.id2), (1, 2));
    assert_eq!(message.msg_type, 6);
    assert_eq!(out.shortcut_dest, Some(20));

    // With a trace too short to name endpoints there is no display event,
    // but the delivery destination still stands.
    let short = DroneEvent::ControllerShortcut(packet(
        PacketType::FloodRequest(FloodRequest { path_trace: vec![1] }),
        &[1, 3],
        1,
    ));
    let out = process_event(&mut state, &short, &registry);
    assert_eq!(out.message, None);
    assert_eq!(out.shortcut_dest, Some(3));
}

#[test]
fn fragments_for_a_departed_node_fire_but_drop() {
    // The counter still advances for a pair whose node has left the
    // registry; the fired event is dropped at resolution time.
    let registry = registry_with(&[(1, NodeType::Drone, 0)]);
    let mut state = DownsampleState::new();
    let ev = DroneEvent::PacketSent(packet(PacketType::MsgFragment, &[1, 9], 1));
    let mut count = 0;
    for _ in 0..1000 {
        if process_event(&mut state, &ev, &registry).message.is_some() {
            count += 1;
        }
    }
    assert_eq!(count, 0);
    assert_eq!(state.msg_fragment, 0);
}
