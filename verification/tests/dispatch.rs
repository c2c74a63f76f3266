//! The command dispatcher and the registry, exercised over real channels.

use sim_controller::send_drone_command;
use sim_controller::ChannelMap;
use sim_controller::Command;
use sim_controller::NodeType;
use sim_controller::Registry;
use sim_controller::SendError;
use sim_controller::get_node_type;

#[test]
fn send_reaches_the_node() {
    let (tx, rx) = crossbeam::channel::unbounded();
    let mut map = ChannelMap::new();
    map.insert(7, tx);
    let senders = Some(map);

    assert_eq!(send_drone_command(&senders, 7, Command::Crash), Ok(()));
    assert_eq!(rx.try_recv(), Ok(Command::Crash));

    assert_eq!(
        send_drone_command(&senders, 7, Command::AddSender(9)),
        Ok(())
    );
    assert_eq!(rx.try_recv(), Ok(Command::AddSender(9)));
}

#[test]
fn send_without_a_map_is_reported() {
    assert_eq!(
        send_drone_command(&None, 7, Command::Crash),
        Err(SendError::NoChannelMap)
    );
}

#[test]
fn send_to_an_unknown_id_is_reported() {
    let (tx, _rx) = crossbeam::channel::unbounded();
    let mut map = ChannelMap::new();
    map.insert(7, tx);
    let senders = Some(map);
    assert_eq!(
        send_drone_command(&senders, 8, Command::Crash),
        Err(SendError::NoChannelForId)
    );
}

#[test]
fn send_to_a_closed_channel_is_reported() {
    let (tx, rx) = crossbeam::channel::unbounded();
    let mut map = ChannelMap::new();
    map.insert(7, tx);
    let senders = Some(map);
    drop(rx);
    assert_eq!(
        send_drone_command(&senders, 7, Command::Crash),
        Err(SendError::ChannelClosed)
    );
}

#[test]
fn channel_map_remove_forgets_the_id() {
    let (tx1, rx1) = crossbeam::channel::unbounded();
    let (tx2, rx2) = crossbeam::channel::unbounded();
    let mut map = ChannelMap::new();
    map.insert(1, tx1);
    map.insert(2, tx2);
    assert!(map.contains(1));
    map.remove(1);
    assert!(!map.contains(1));
    assert!(map.contains(2));

    let senders = Some(map);
    assert_eq!(
        send_drone_command(&senders, 1, Command::Crash),
        Err(SendError::NoChannelForId)
    );
    assert_eq!(send_drone_command(&senders, 2, Command::Crash), Ok(()));
    assert_eq!(rx2.try_recv(), Ok(Command::Crash));
    assert!(rx1.try_recv().is_err());
}

#[test]
fn registry_lookup_reports_kind_and_position() {
    let mut registry = Registry::new();
    registry.insert(4, NodeType::Drone, 0);
    registry.insert(21, NodeType::Client, 3);
    registry.insert(33, NodeType::Server, 1);

    assert_eq!(get_node_type(4, &registry), (0, 0));
    assert_eq!(get_node_type(21, &registry), (1, 3));
    assert_eq!(get_node_type(33, &registry), (2, 1));
    assert_eq!(get_node_type(5, &registry), (-1, -1));

    assert_eq!(registry.lookup(21), Some((NodeType::Client, 3)));
    assert_eq!(registry.lookup(5), None);

    registry.clear();
    assert_eq!(get_node_type(4, &registry), (-1, -1));
    assert!(registry.is_empty());
}
