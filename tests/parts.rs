use simulation::geometry::{heading, isqrt, step_toward};
use simulation::node::{Admission, LoadRate, Node, NodeKind, ProcessingPacket};
use simulation::packet::{draw, jittered_speed_of, ramp_target_of, scatter_velocity_of, Packet, PacketState, PacketType};
use simulation::routing::{find_next_node_by_type, find_next_server_target, next_hop, Hop};

#[test]
fn isqrt_is_exact() {
    assert_eq!(isqrt(0), 0);
    assert_eq!(isqrt(1), 1);
    assert_eq!(isqrt(24), 4);
    assert_eq!(isqrt(25), 5);
    assert_eq!(isqrt(26), 5);
    assert_eq!(isqrt(u128::MAX), u64::MAX);
}

#[test]
fn step_toward_moves_by_speed_and_stops_at_radius() {
    assert_eq!(step_toward(0, 0, 100, 0, 10), Some((10, 0)));
    assert_eq!(step_toward(0, 0, 30, 40, 10), Some((6, 8)));
    assert_eq!(step_toward(0, 0, -30, -40, 5), Some((-3, -4)));
    // a fast packet passes the target by its full speed
    assert_eq!(step_toward(0, 0, 10, 0, 20), Some((20, 0)));
    assert_eq!(step_toward(0, 0, 8, 0, 100), Some((100, 0)));
    assert_eq!(step_toward(20, 0, 10, 0, 20), Some((0, 0)));
    // within the arrival radius
    assert_eq!(step_toward(0, 0, 2, 4, 10), None);
    assert_eq!(step_toward(0, 0, 3, 4, 10), Some((6, 8)));
    assert_eq!(step_toward(0, 0, 5, 0, 10), Some((10, 0)));
    assert_eq!(step_toward(7, 7, 7, 7, 10), None);
}

#[test]
fn heading_points_at_destination() {
    assert_eq!(heading(30, 40, 5), (3, 4));
    assert_eq!(heading(-100, 0, 7), (-7, 0));
    assert_eq!(heading(0, 0, 4), (4, 0));
}

#[test]
fn ramp_targets() {
    assert_eq!(ramp_target_of(100, 500, 1000), 50);
    assert_eq!(ramp_target_of(100, 1000, 1000), 100);
    assert_eq!(ramp_target_of(100, 5000, 1000), 100);
    assert_eq!(ramp_target_of(3, 1, 2), 1);
    assert_eq!(ramp_target_of(7, 0, 0), 7);
    assert_eq!(ramp_target_of(usize::MAX, u64::MAX - 1, u64::MAX), usize::MAX - 1);
}

#[test]
fn jittered_speeds() {
    assert_eq!(jittered_speed_of(10, 4, 0), 6);
    assert_eq!(jittered_speed_of(10, 4, 32768), 10);
    assert_eq!(jittered_speed_of(10, 4, 65535), 13);
    assert_eq!(jittered_speed_of(1, 5, 0), 0);
    assert_eq!(scatter_velocity_of(0), -2);
    assert_eq!(scatter_velocity_of(32768), 0);
    assert_eq!(scatter_velocity_of(65535), 1);
}

#[test]
fn draws_cycle() {
    let d = vec![5u16, 6, 7];
    assert_eq!(draw(&d, 0), 5);
    assert_eq!(draw(&d, 4), 6);
    assert_eq!(draw(&vec![], 9), 32768);
}

#[test]
fn kinds_and_defaults() {
    assert_eq!(NodeKind::from_code(2), Some(NodeKind::Worker));
    assert_eq!(NodeKind::from_code(4), None);
    assert_eq!(NodeKind::Store.code(), 3);
    assert_eq!(PacketType::HeavyTask.code(), 2);
    let n = Node::new(7, 1, 2, NodeKind::Worker);
    assert_eq!(n.spec.max_concurrent, 20);
    assert_eq!(n.spec.service_time_ms, 50);
    assert_eq!(n.spec.queue_capacity, 50);
    assert_eq!(n.spec.cost, 150);
    assert_eq!(n.spec.bandwidth_permille, 300);
    let e = Node::new(0, 0, 0, NodeKind::Entry);
    assert_eq!(e.spec.service_time_ms, 0);
    let p = Packet::default();
    assert!(!p.active);
    assert_eq!(p.size, 1);
    assert_eq!(p.state, PacketState::Moving);
    assert_eq!(p.target_node_idx, None);
}

#[test]
fn service_time_grows_with_size() {
    let w = Node::new(0, 0, 0, NodeKind::Worker);
    assert_eq!(w.service_time_for(1), 50);
    assert_eq!(w.service_time_for(10), 185);
    let b = Node::new(0, 0, 0, NodeKind::Balancer);
    assert_eq!(b.service_time_for(10), 55);
    let s = Node::new(0, 0, 0, NodeKind::Store);
    assert_eq!(s.service_time_for(10), 84);
}

#[test]
fn admission_policy() {
    let mut n = Node::new(0, 0, 0, NodeKind::Worker);
    n.spec.max_concurrent = 1;
    n.spec.queue_capacity = 1;
    assert_eq!(n.admission(), Admission::Serve);
    n.processing_packets.push(ProcessingPacket { packet_idx: 0, remaining_time_ms: 5, packet_size: 1 });
    assert_eq!(n.admission(), Admission::Enqueue);
    n.queue.push(simulation::node::QueuedPacket { packet_idx: 1 });
    assert_eq!(n.admission(), Admission::Reject);
    assert_eq!(n.load_rate(), LoadRate { numerator: 1, denominator: 1 });
    assert_eq!(n.current_load(), 1);
    assert_eq!(n.queue_size(), 1);
}

#[test]
fn advance_counts_down_and_releases() {
    let mut n = Node::new(0, 0, 0, NodeKind::Worker);
    n.processing_packets.push(ProcessingPacket { packet_idx: 4, remaining_time_ms: 10, packet_size: 1 });
    n.processing_packets.push(ProcessingPacket { packet_idx: 9, remaining_time_ms: 30, packet_size: 1 });
    let done = n.advance(10);
    assert_eq!(done, vec![4]);
    assert_eq!(n.processing_packets.len(), 1);
    assert_eq!(n.processing_packets[0].remaining_time_ms, 20);
    assert_eq!(n.total_processed, 1);
}

#[test]
fn routing_table() {
    assert_eq!(next_hop(NodeKind::Entry, false), Hop::First(NodeKind::Balancer));
    assert_eq!(next_hop(NodeKind::Balancer, false), Hop::LeastLoadedWorker);
    assert_eq!(next_hop(NodeKind::Worker, false), Hop::First(NodeKind::Store));
    assert_eq!(next_hop(NodeKind::Store, false), Hop::TurnAround);
    assert_eq!(next_hop(NodeKind::Store, true), Hop::AnchorWorker);
    assert_eq!(next_hop(NodeKind::Worker, true), Hop::First(NodeKind::Balancer));
    assert_eq!(next_hop(NodeKind::Balancer, true), Hop::First(NodeKind::Entry));
    assert_eq!(next_hop(NodeKind::Entry, true), Hop::Complete);
}

#[test]
fn least_loaded_worker_first_wins_ties() {
    let mut nodes = vec![
        Node::new(0, 0, 0, NodeKind::Entry),
        Node::new(1, 0, 0, NodeKind::Worker),
        Node::new(2, 0, 0, NodeKind::Worker),
        Node::new(3, 0, 0, NodeKind::Worker),
    ];
    assert_eq!(find_next_server_target(&nodes), Some(1));
    nodes[1].processing_packets.push(ProcessingPacket { packet_idx: 0, remaining_time_ms: 1, packet_size: 1 });
    assert_eq!(find_next_server_target(&nodes), Some(2));
    // 1 of 20 at node 2 against 1 of 40 at node 3: node 3 is lighter
    nodes[2].processing_packets.push(ProcessingPacket { packet_idx: 1, remaining_time_ms: 1, packet_size: 1 });
    nodes[3].spec.max_concurrent = 40;
    nodes[3].processing_packets.push(ProcessingPacket { packet_idx: 2, remaining_time_ms: 1, packet_size: 1 });
    assert_eq!(find_next_server_target(&nodes), Some(3));
    assert_eq!(find_next_node_by_type(&nodes, NodeKind::Worker), Some(1));
    assert_eq!(find_next_node_by_type(&nodes, NodeKind::Store), None);
    assert_eq!(find_next_server_target(&vec![Node::new(0, 0, 0, NodeKind::Entry)]), None);
}
