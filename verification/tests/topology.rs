//! Building the observer model and mutating it through operator intents.

use sim_controller::Command;
use sim_controller::ConfigLoadError;
use sim_controller::ChannelMap;
use sim_controller::ChannelSet;
use sim_controller::NewTopology;
use sim_controller::ParsedClient;
use sim_controller::ParsedDrone;
use sim_controller::ParsedServer;
use sim_controller::Registry;
use sim_controller::SimulationController;
use sim_controller::check_edges;
use sim_controller::get_node_type;
use sim_controller::populate_all;
use sim_controller::validate_config;

use crossbeam::channel::Receiver;

fn drone(id: u8, connected: &[u8]) -> ParsedDrone {
    ParsedDrone { id, connected_drone_ids: connected.to_vec(), pdr: 0 }
}

fn client(id: u8, connected: &[u8]) -> ParsedClient {
    ParsedClient { id, connected_drone_ids: connected.to_vec() }
}

fn server(id: u8, connected: &[u8]) -> ParsedServer {
    ParsedServer { id, connected_drone_ids: connected.to_vec() }
}

/// Drones {1,2,3} fully connected, client 20 -> 1, server 30 -> 3.
fn full_config() -> (Vec<ParsedDrone>, Vec<ParsedClient>, Vec<ParsedServer>) {
    (
        vec![drone(1, &[2, 3]), drone(2, &[1, 3]), drone(3, &[1, 2])],
        vec![client(20, &[1])],
        vec![server(30, &[3])],
    )
}

/// The same nodes with drones 1 and 3 not connected.
fn line_config() -> (Vec<ParsedDrone>, Vec<ParsedClient>, Vec<ParsedServer>) {
    (
        vec![drone(1, &[2]), drone(2, &[1, 3]), drone(3, &[2])],
        vec![client(20, &[1])],
        vec![server(30, &[3])],
    )
}

fn build_controller(
    config: (Vec<ParsedDrone>, Vec<ParsedClient>, Vec<ParsedServer>),
) -> (SimulationController, Vec<(u8, Receiver<Command>)>) {
    let (drones, clients, servers) = config;
    let mut senders = ChannelMap::new();
    let mut channels = ChannelSet::new();
    let mut receivers = Vec::new();
    let mut ids: Vec<u8> = Vec::new();
    ids.extend(drones.iter().map(|d| d.id));
    ids.extend(clients.iter().map(|c| c.id));
    ids.extend(servers.iter().map(|s| s.id));
    for id in ids {
        let (tx, rx) = crossbeam::channel::unbounded();
        senders.insert(id, tx);
        channels.insert(id);
        receivers.push((id, rx));
    }
    let loaded = Ok(NewTopology { drones, clients, servers, senders, channels });
    (SimulationController::new(loaded).unwrap(), receivers)
}

fn edge_pairs(c: &SimulationController) -> Vec<(i32, i32)> {
    c.edges.iter().map(|e| (e.id1, e.id2)).collect()
}

fn sorted(mut v: Vec<i32>) -> Vec<i32> {
    v.sort();
    v
}

#[test]
fn populate_builds_registry_and_edges() {
    let (pd, pc, ps) = full_config();
    let mut edges = Vec::new();
    let mut registry = Registry::new();
    let (drones, clients, servers) = populate_all(&pd, &ps, &pc, &mut edges, &mut registry);

    assert_eq!(get_node_type(1, &registry), (0, 0));
    assert_eq!(get_node_type(2, &registry), (0, 1));
    assert_eq!(get_node_type(3, &registry), (0, 2));
    assert_eq!(get_node_type(20, &registry), (1, 0));
    assert_eq!(get_node_type(30, &registry), (2, 0));
    assert_eq!(get_node_type(99, &registry), (-1, -1));

    // Every edge is stored canonically: the lower id first.
    let pairs: Vec<(i32, i32)> = edges.iter().map(|e| (e.id1, e.id2)).collect();
    assert_eq!(pairs, vec![(1, 2), (1, 3), (2, 3), (1, 20), (3, 30)]);

    assert_eq!(drones.len(), 3);
    assert_eq!(sorted(drones[0].adjacent.clone()), vec![2, 3]);
    assert!(drones[0].not_adjacent.is_empty());
    assert_eq!(drones[0].position_in_vector, 0);
    assert!(!drones[0].crashed);

    assert_eq!(clients.len(), 1);
    assert_eq!(clients[0].id, 20);
    assert_eq!(clients[0].drones_adjacent, vec![1]);
    assert_eq!(sorted(clients[0].drones_not_adjacent.clone()), vec![2, 3]);

    assert_eq!(servers.len(), 1);
    assert_eq!(servers[0].id, 30);
    assert_eq!(servers[0].drones_adjacent, vec![3]);
    assert_eq!(sorted(servers[0].drones_not_adjacent.clone()), vec![1, 2]);
}

#[test]
fn populate_line_topology_not_adjacent() {
    let (pd, pc, ps) = line_config();
    let mut edges = Vec::new();
    let mut registry = Registry::new();
    let (drones, _, _) = populate_all(&pd, &ps, &pc, &mut edges, &mut registry);

    let pairs: Vec<(i32, i32)> = edges.iter().map(|e| (e.id1, e.id2)).collect();
    assert_eq!(pairs, vec![(1, 2), (2, 3), (1, 20), (3, 30)]);
    assert_eq!(drones[0].adjacent, vec![2]);
    assert_eq!(drones[0].not_adjacent, vec![3]);
    assert_eq!(drones[2].adjacent, vec![2]);
    assert_eq!(drones[2].not_adjacent, vec![1]);
}

#[test]
fn populate_edge_fields_are_denormalized() {
    let (pd, pc, ps) = full_config();
    let mut edges = Vec::new();
    let mut registry = Registry::new();
    populate_all(&pd, &ps, &pc, &mut edges, &mut registry);

    // Each endpoint's kind code and position stand with its id.
    let client_edge = edges.iter().find(|e| e.id2 == 20).unwrap();
    assert_eq!(client_edge.id1, 1);
    assert_eq!(client_edge.node_type1, 0);
    assert_eq!(client_edge.node_type2, 1);
    assert_eq!(client_edge.index1, 0);
    assert_eq!(client_edge.index2, 0);

    let server_edge = edges.iter().find(|e| e.id2 == 30).unwrap();
    assert_eq!(server_edge.id1, 3);
    assert_eq!(server_edge.node_type1, 0);
    assert_eq!(server_edge.node_type2, 2);
    assert_eq!(server_edge.index1, 2);
    assert_eq!(server_edge.index2, 0);
}

#[test]
fn check_edges_ignores_order() {
    let (pd, pc, ps) = full_config();
    let mut edges = Vec::new();
    let mut registry = Registry::new();
    populate_all(&pd, &ps, &pc, &mut edges, &mut registry);

    assert!(check_edges(&edges, 1, 2));
    assert!(check_edges(&edges, 2, 1));
    assert!(check_edges(&edges, 1, 20));
    assert!(!check_edges(&edges, 1, 30));
    assert!(!check_edges(&edges, 7, 8));
}

#[test]
fn validate_config_accepts_and_rejects() {
    let (pd, pc, ps) = full_config();
    assert!(validate_config(&pd, &pc, &ps));

    let duplicate_id = vec![drone(1, &[2]), drone(1, &[2])];
    assert!(!validate_config(&duplicate_id, &pc, &ps));

    let cross_duplicate = vec![drone(20, &[2])];
    assert!(!validate_config(&cross_duplicate, &pc, &ps));

    let self_loop = vec![drone(1, &[1])];
    assert!(!validate_config(&self_loop, &vec![], &vec![]));

    let repeated_neighbor = vec![drone(1, &[2, 2]), drone(2, &[1, 1])];
    assert!(!validate_config(&repeated_neighbor, &vec![], &vec![]));
}

#[test]
fn crash_removes_edges_and_adjacency() {
    // Drones {1,2,3} fully connected, client 20 -> 1, server 30 -> 3:
    // crashing 2 removes edges (1,2) and (2,3), leaves (1,3), (20,1) and
    // (30,3), and removes 2 from drone 1's and drone 3's adjacency.
    let (mut controller, receivers) = build_controller(full_config());
    let records = controller.on_crash(2);

    assert_eq!(edge_pairs(&controller), vec![(1, 3), (1, 20), (3, 30)]);
    assert_eq!(sorted(controller.drones[0].adjacent.clone()), vec![3]);
    assert_eq!(sorted(controller.drones[2].adjacent.clone()), vec![1]);
    assert!(!controller.drones[0].not_adjacent.contains(&2));
    assert!(!controller.drones[2].not_adjacent.contains(&2));
    assert_eq!(controller.clients[0].drones_adjacent, vec![1]);
    assert_eq!(sorted(controller.clients[0].drones_not_adjacent.clone()), vec![3]);

    // The crashed node got the crash command; its former neighbors were
    // told to drop their channel to it.
    assert_eq!(records[0].target, 2);
    assert_eq!(records[0].command, Command::Crash);
    assert_eq!(records[0].result, Ok(()));
    let mut fanout: Vec<u8> = records[1..].iter().map(|r| r.target).collect();
    fanout.sort();
    assert_eq!(fanout, vec![1, 3]);
    for r in &records[1..] {
        assert_eq!(r.command, Command::RemoveSender(2));
    }

    // The registry entry deliberately stays until reconfiguration.
    assert_eq!(get_node_type(2, &controller.id_to_type), (0, 1));

    // Node 2's own channel is gone: later commands cannot reach it.
    assert_eq!(
        controller.on_change_pdr(2, 42).result,
        Err(sim_controller::SendError::NoChannelForId)
    );

    // What was sent is what the nodes received.
    let rx1 = &receivers.iter().find(|(id, _)| *id == 1).unwrap().1;
    assert_eq!(rx1.try_recv(), Ok(Command::RemoveSender(2)));
    let rx2 = &receivers.iter().find(|(id, _)| *id == 2).unwrap().1;
    assert_eq!(rx2.try_recv(), Ok(Command::Crash));
}

#[test]
fn add_edge_creates_one_edge_and_two_sends() {
    // Adding the missing link (1,3) creates exactly one new edge with
    // id1 = 1, id2 = 3, updates both adjacency sets, and issues exactly
    // two dispatcher sends: AddSender(3) to 1 and AddSender(1) to 3.
    let (mut controller, receivers) = build_controller(line_config());
    let edges_before = controller.edges.len();
    let records = controller.on_add_edge(1, 3);

    assert_eq!(controller.edges.len(), edges_before + 1);
    let new_edge = controller.edges.last().unwrap();
    assert_eq!((new_edge.id1, new_edge.id2), (1, 3));
    assert_eq!((new_edge.index1, new_edge.index2), (0, 2));
    assert!(controller.drones[0].adjacent.contains(&3));
    assert!(!controller.drones[0].not_adjacent.contains(&3));
    assert!(controller.drones[2].adjacent.contains(&1));
    assert!(!controller.drones[2].not_adjacent.contains(&1));

    assert_eq!(records.len(), 2);
    assert_eq!((records[0].target, records[0].command), (1, Command::AddSender(3)));
    assert_eq!((records[1].target, records[1].command), (3, Command::AddSender(1)));
    assert_eq!(records[0].result, Ok(()));
    assert_eq!(records[1].result, Ok(()));

    let rx1 = &receivers.iter().find(|(id, _)| *id == 1).unwrap().1;
    assert_eq!(rx1.try_recv(), Ok(Command::AddSender(3)));
    let rx3 = &receivers.iter().find(|(id, _)| *id == 3).unwrap().1;
    assert_eq!(rx3.try_recv(), Ok(Command::AddSender(1)));
}

#[test]
fn duplicate_add_edge_leaves_graph_untouched() {
    let (mut controller, _receivers) = build_controller(full_config());
    let edges_before = edge_pairs(&controller);
    let adjacent_before = controller.drones[0].adjacent.clone();
    let records = controller.on_add_edge(1, 3);

    // The graph is unchanged, but the commands are still issued.
    assert_eq!(edge_pairs(&controller), edges_before);
    assert_eq!(controller.drones[0].adjacent, adjacent_before);
    assert_eq!(records.len(), 2);
}

#[test]
fn add_then_remove_edge_round_trip() {
    // Adding (1,3) and then removing it restores the adjacency and
    // not-adjacency sets of both drones and the edge list.
    let (mut controller, _receivers) = build_controller(line_config());
    let edges_before = edge_pairs(&controller);
    let adj1 = sorted(controller.drones[0].adjacent.clone());
    let nadj1 = sorted(controller.drones[0].not_adjacent.clone());
    let adj3 = sorted(controller.drones[2].adjacent.clone());
    let nadj3 = sorted(controller.drones[2].not_adjacent.clone());

    controller.on_add_edge(1, 3);
    controller.on_remove_edge(1, 3);

    assert_eq!(edge_pairs(&controller), edges_before);
    assert_eq!(sorted(controller.drones[0].adjacent.clone()), adj1);
    assert_eq!(sorted(controller.drones[0].not_adjacent.clone()), nadj1);
    assert_eq!(sorted(controller.drones[2].adjacent.clone()), adj3);
    assert_eq!(sorted(controller.drones[2].not_adjacent.clone()), nadj3);
}

#[test]
fn remove_missing_edge_is_a_no_op() {
    let (mut controller, _receivers) = build_controller(line_config());
    let edges_before = edge_pairs(&controller);
    let records = controller.on_remove_edge(1, 3);

    assert_eq!(edge_pairs(&controller), edges_before);
    // The commands are still issued, best-effort.
    assert_eq!(records.len(), 2);
    assert_eq!(records[0].command, Command::RemoveSender(3));
    assert_eq!(records[1].command, Command::RemoveSender(1));
}

#[test]
fn remove_edge_moves_id_to_not_adjacent() {
    let (mut controller, _receivers) = build_controller(full_config());
    controller.on_remove_edge(1, 2);

    assert_eq!(edge_pairs(&controller), vec![(1, 3), (2, 3), (1, 20), (3, 30)]);
    assert_eq!(sorted(controller.drones[0].adjacent.clone()), vec![3]);
    assert_eq!(sorted(controller.drones[0].not_adjacent.clone()), vec![2]);
    assert_eq!(sorted(controller.drones[1].adjacent.clone()), vec![3]);
    assert_eq!(sorted(controller.drones[1].not_adjacent.clone()), vec![1]);
}

#[test]
fn add_and_remove_edge_client_server() {
    let (mut controller, receivers) = build_controller(full_config());

    // Connect client 20 to drone 2.
    let records = controller.on_add_edge_client_server(2, 20);
    assert_eq!(records.len(), 2);
    let new_edge = controller.edges.last().unwrap();
    assert_eq!((new_edge.id1, new_edge.id2), (2, 20));
    assert_eq!((new_edge.node_type1, new_edge.node_type2), (0, 1));
    assert!(controller.clients[0].drones_adjacent.contains(&2));
    assert!(!controller.clients[0].drones_not_adjacent.contains(&2));
    let rx2 = &receivers.iter().find(|(id, _)| *id == 2).unwrap().1;
    assert_eq!(rx2.try_recv(), Ok(Command::AddSender(20)));

    // And sever it again.
    controller.on_remove_edge_client_server(20, 2);
    assert!(!controller.clients[0].drones_adjacent.contains(&2));
    assert!(controller.clients[0].drones_not_adjacent.contains(&2));
    assert!(!check_edges(&controller.edges, 2, 20));
    assert_eq!(rx2.try_recv(), Ok(Command::RemoveSender(20)));
}

#[test]
fn change_pdr_reaches_the_drone() {
    let (controller, receivers) = build_controller(full_config());
    let record = controller.on_change_pdr(2, 314);
    assert_eq!(record.target, 2);
    assert_eq!(record.command, Command::SetDropRate(314));
    assert_eq!(record.result, Ok(()));
    let rx2 = &receivers.iter().find(|(id, _)| *id == 2).unwrap().1;
    assert_eq!(rx2.try_recv(), Ok(Command::SetDropRate(314)));
}

#[test]
fn failed_reconfiguration_changes_nothing() {
    // A configuration that fails to load leaves the published topology
    // and every command channel untouched.
    let (mut controller, receivers) = build_controller(full_config());
    let edges_before = edge_pairs(&controller);

    let (records, outcome) = controller.reconfigure(Err(ConfigLoadError::LoadFailed));
    assert_eq!(outcome, Err(ConfigLoadError::LoadFailed));
    assert!(records.is_empty());
    assert_eq!(edge_pairs(&controller), edges_before);

    // The channels still work.
    assert_eq!(controller.on_change_pdr(1, 7).result, Ok(()));
    let rx1 = &receivers.iter().find(|(id, _)| *id == 1).unwrap().1;
    assert_eq!(rx1.try_recv(), Ok(Command::SetDropRate(7)));
    // And nothing was sent to the nodes during the failed swap.
    let rx2 = &receivers.iter().find(|(id, _)| *id == 2).unwrap().1;
    assert!(rx2.try_recv().is_err());
}

#[test]
fn invalid_reconfiguration_changes_nothing() {
    let (mut controller, _receivers) = build_controller(full_config());
    let edges_before = edge_pairs(&controller);

    let senders = ChannelMap::new();
    let channels = ChannelSet::new();
    let bad = NewTopology {
        drones: vec![drone(1, &[1])],
        clients: vec![],
        servers: vec![],
        senders,
        channels,
    };
    let (records, outcome) = controller.reconfigure(Ok(bad));
    assert_eq!(outcome, Err(ConfigLoadError::InvalidConfig));
    assert!(records.is_empty());
    assert_eq!(edge_pairs(&controller), edges_before);
}

#[test]
fn reconfiguration_quiesces_and_rebuilds() {
    let (mut controller, receivers) = build_controller(full_config());

    let new_drones = vec![drone(5, &[6]), drone(6, &[5])];
    let mut senders = ChannelMap::new();
    let mut channels = ChannelSet::new();
    let mut new_receivers = Vec::new();
    for id in [5u8, 6u8] {
        let (tx, rx) = crossbeam::channel::unbounded();
        senders.insert(id, tx);
        channels.insert(id);
        new_receivers.push((id, rx));
    }
    let nt = NewTopology { drones: new_drones, clients: vec![], servers: vec![], senders, channels };
    let (records, outcome) = controller.reconfigure(Ok(nt));
    assert_eq!(outcome, Ok(()));

    // The old network was quiesced: every node crashed, every neighbor
    // told to drop its channel, drones first.
    let plan: Vec<(u8, Command)> = records.iter().map(|r| (r.target, r.command)).collect();
    assert_eq!(plan[0], (1, Command::Crash));
    assert_eq!(plan[1], (2, Command::RemoveSender(1)));
    assert_eq!(plan[2], (3, Command::RemoveSender(1)));
    assert_eq!(plan[3], (2, Command::Crash));
    assert!(plan.contains(&(20, Command::Crash)));
    assert!(plan.contains(&(30, Command::Crash)));
    let rx1 = &receivers.iter().find(|(id, _)| *id == 1).unwrap().1;
    assert_eq!(rx1.try_recv(), Ok(Command::Crash));

    // The new topology is published.
    assert_eq!(edge_pairs(&controller), vec![(5, 6)]);
    assert_eq!(get_node_type(5, &controller.id_to_type), (0, 0));
    assert_eq!(get_node_type(1, &controller.id_to_type), (-1, -1));
    assert_eq!(controller.on_change_pdr(5, 9).result, Ok(()));
    let rx5 = &new_receivers.iter().find(|(id, _)| *id == 5).unwrap().1;
    assert_eq!(rx5.try_recv(), Ok(Command::SetDropRate(9)));
}

#[test]
fn shutdown_quiesces_every_node() {
    let (mut controller, receivers) = build_controller(full_config());
    let records = controller.shutdown();

    let plan: Vec<(u8, Command)> = records.iter().map(|r| (r.target, r.command)).collect();
    // Drone 1 first: crash, then its neighbors sever their channels to it.
    assert_eq!(plan[0], (1, Command::Crash));
    assert_eq!(plan[1], (2, Command::RemoveSender(1)));
    assert_eq!(plan[2], (3, Command::RemoveSender(1)));
    // Every node is crashed exactly once.
    let crashes: Vec<u8> = plan
        .iter()
        .filter(|(_, c)| *c == Command::Crash)
        .map(|(t, _)| *t)
        .collect();
    assert_eq!(crashes, vec![1, 2, 3, 20, 30]);
    // Clients and servers fan out too: their neighbors sever their
    // channels to them.
    assert!(plan.contains(&(1, Command::RemoveSender(20))));
    assert!(plan.contains(&(3, Command::RemoveSender(30))));

    // All channels are gone afterwards.
    assert_eq!(
        controller.on_change_pdr(1, 1).result,
        Err(sim_controller::SendError::NoChannelForId)
    );
    let rx30 = &receivers.iter().find(|(id, _)| *id == 30).unwrap().1;
    assert_eq!(rx30.try_recv(), Ok(Command::Crash));
}

#[test]
fn built_edges_endpoints_are_adjacent() {
    // After a build of a symmetric configuration — every declared link
    // declared by both sides — both endpoints of every edge list the
    // other endpoint as adjacent and not as not-adjacent.
    let symmetric = (
        vec![drone(1, &[2, 3, 20]), drone(2, &[1, 3]), drone(3, &[1, 2, 30])],
        vec![client(20, &[1])],
        vec![server(30, &[3])],
    );
    let (controller, _receivers) = build_controller(symmetric);
    for edge in &controller.edges {
        for (node, peer) in [(edge.id1, edge.id2), (edge.id2, edge.id1)] {
            for d in &controller.drones {
                if d.id == node {
                    assert!(d.adjacent.contains(&peer));
                    assert!(!d.not_adjacent.contains(&peer));
                }
            }
            for c in controller.clients.iter().chain(controller.servers.iter()) {
                if c.id == node {
                    assert!(c.drones_adjacent.contains(&peer));
                    assert!(!c.drones_not_adjacent.contains(&peer));
                }
            }
        }
    }
}

#[test]
fn adjacency_lists_stay_disjoint() {
    // Between operator intents no node holds an id in both its adjacent
    // and its not-adjacent list.
    let (mut controller, _receivers) = build_controller(full_config());
    controller.on_remove_edge(1, 2);
    controller.on_add_edge(1, 2);
    controller.on_crash(3);
    for d in &controller.drones {
        for id in &d.adjacent {
            assert!(!d.not_adjacent.contains(id));
        }
    }
    for c in controller.clients.iter().chain(controller.servers.iter()) {
        for id in &c.drones_adjacent {
            assert!(!c.drones_not_adjacent.contains(id));
        }
    }
}
