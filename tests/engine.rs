use simulation::engine::SimulationState;
use simulation::node::{LoadRate, NodeKind};
use simulation::packet::PacketState;

fn none() -> Vec<u16> {
    Vec::new()
}

/// Entry, balancer, two workers and a store, along the x axis.
fn pipeline(sim: &mut SimulationState) {
    sim.add_node(10, 0, 0, NodeKind::Entry);
    sim.add_node(11, 100, 0, NodeKind::Balancer);
    sim.add_node(12, 200, 0, NodeKind::Worker);
    sim.add_node(13, 200, 100, NodeKind::Worker);
    sim.add_node(14, 300, 0, NodeKind::Store);
}

fn conserved(sim: &SimulationState) -> bool {
    sim.get_stats_spawned()
        == sim.get_stats_processed() + sim.get_stats_dropped() + sim.get_active_count() as u64
}

#[test]
fn new_engine_is_empty() {
    let sim = SimulationState::new(8);
    assert_eq!(sim.get_max_packets(), 8);
    assert_eq!(sim.get_active_count(), 0);
    assert_eq!(sim.get_current_time(), 0);
    assert_eq!(sim.get_node_count(), 0);
    assert_eq!(sim.get_stats_spawned(), 0);
    assert!(sim.get_active_coords().is_empty());
}

#[test]
fn ramp_emits_half_then_all() {
    let mut sim = SimulationState::new(200);
    sim.spawn_wave(500, 500, 600, 500, 100, 1000, 0, 0, 0, 0);
    assert_eq!(sim.pending_spawn_count(), 1);
    sim.tick(500, &none());
    assert_eq!(sim.get_stats_spawned(), 50);
    assert_eq!(sim.get_active_count(), 50);
    assert_eq!(sim.pending_spawn_count(), 1);
    sim.tick(500, &none());
    assert_eq!(sim.get_stats_spawned(), 100);
    assert_eq!(sim.get_active_count(), 100);
    assert_eq!(sim.pending_spawn_count(), 0);
    assert_eq!(sim.get_current_time(), 1000);
}

#[test]
fn emission_is_limited_by_free_slots() {
    let mut sim = SimulationState::new(3);
    sim.spawn_wave(500, 500, 600, 500, 5, 0, 0, 0, 0, 0);
    sim.tick(16, &none());
    assert_eq!(sim.get_stats_spawned(), 3);
    assert_eq!(sim.pending_spawn_count(), 1);
    assert!(conserved(&sim));
}

#[test]
fn empty_wave_retires_on_next_tick() {
    let mut sim = SimulationState::new(3);
    sim.spawn_wave_to_node(0, 0, 0, 0, 100, 1, 0, 0, 0);
    assert_eq!(sim.pending_spawn_count(), 1);
    sim.tick(1, &none());
    assert_eq!(sim.pending_spawn_count(), 0);
    assert_eq!(sim.get_stats_spawned(), 0);
}

#[test]
fn finished_packet_is_routed_after_motion() {
    let mut sim = SimulationState::new(2);
    sim.add_node_with_spec(1, 0, 0, NodeKind::Worker, 1, 10, 0, 0);
    sim.add_node(2, 100, 0, NodeKind::Store);
    sim.spawn_wave_to_node(0, 0, 0, 1, 0, 10, 0, 0, 0);
    sim.tick(1, &none());
    assert_eq!(sim.packet_at(0).unwrap().state, PacketState::Processing);
    sim.tick(10, &none());
    let p = sim.packet_at(0).unwrap();
    assert_eq!(p.state, PacketState::Moving);
    assert_eq!(p.target_node_idx, Some(1));
    // routed after this tick's motion: still standing at the worker
    assert_eq!((p.x, p.y), (0, 0));
    assert_eq!(sim.node_at(0).unwrap().total_processed, 1);
    sim.tick(10, &none());
    assert_eq!(sim.packet_at(0).unwrap().x, 10);
}

#[test]
fn overloaded_worker_drops_second_arrival() {
    let mut sim = SimulationState::new(4);
    sim.add_node_with_spec(1, 100, 100, NodeKind::Worker, 1, 100, 0, 0);
    sim.spawn_wave_to_node(100, 100, 0, 2, 0, 1, 0, 0, 0);
    sim.tick(1, &none());
    assert_eq!(sim.get_stats_spawned(), 2);
    assert_eq!(sim.get_stats_dropped(), 1);
    assert_eq!(sim.get_active_count(), 1);
    let w = sim.node_at(0).unwrap();
    assert_eq!(w.current_load(), 1);
    assert_eq!(w.queue_size(), 0);
    assert_eq!(w.total_dropped, 1);
    assert!(conserved(&sim));
}

#[test]
fn queue_then_promotion() {
    let mut sim = SimulationState::new(4);
    sim.add_node_with_spec(1, 100, 100, NodeKind::Store, 1, 10, 1, 0);
    sim.spawn_wave_to_node(100, 100, 0, 2, 0, 1, 0, 0, 0);
    sim.tick(1, &none());
    assert_eq!(sim.node_at(0).unwrap().current_load(), 1);
    assert_eq!(sim.node_at(0).unwrap().queue_size(), 1);
    assert_eq!(sim.packet_at(1).unwrap().state, PacketState::Queued);
    // the first finishes, turns into a response with no worker to go to and
    // is dropped; the queued one moves up
    sim.tick(10, &none());
    assert_eq!(sim.node_at(0).unwrap().current_load(), 1);
    assert_eq!(sim.node_at(0).unwrap().queue_size(), 0);
    assert_eq!(sim.packet_at(1).unwrap().state, PacketState::Processing);
    assert_eq!(sim.get_stats_dropped(), 1);
    assert!(conserved(&sim));
}

#[test]
fn round_trip_completes_through_same_worker() {
    let mut sim = SimulationState::new(4);
    pipeline(&mut sim);
    sim.spawn_wave_to_node(0, 0, 0, 1, 0, 10, 0, 0, 0);
    let mut saw_response = false;
    for _ in 0..400 {
        sim.tick(16, &none());
        assert!(conserved(&sim));
        let p = sim.packet_at(0).unwrap();
        if p.active && p.is_response {
            saw_response = true;
            assert_eq!(p.origin_server_idx, Some(2));
            assert_eq!(p.size, 10);
            if p.target_node_idx == Some(2) || p.target_node_idx == Some(3) {
                assert_eq!(p.target_node_idx, Some(2));
            }
            let details = sim.get_active_packet_details();
            assert_eq!(details.len(), 4);
            assert_eq!(details[2], 1);
            assert_eq!(details[3], 10);
        }
    }
    assert!(saw_response);
    assert_eq!(sim.get_stats_processed(), 1);
    assert_eq!(sim.get_stats_dropped(), 0);
    assert_eq!(sim.get_active_count(), 0);
    assert_eq!(sim.node_at(2).unwrap().total_processed, 2);
    assert_eq!(sim.node_at(3).unwrap().total_processed, 0);
    assert_eq!(sim.node_at(4).unwrap().total_processed, 1);
    assert_eq!(sim.node_at(1).unwrap().total_processed, 2);
}

#[test]
fn missing_balancer_drops_at_entry() {
    let mut sim = SimulationState::new(2);
    sim.add_node(1, 0, 0, NodeKind::Entry);
    sim.spawn_wave_to_node(0, 0, 0, 1, 0, 5, 0, 0, 0);
    sim.tick(1, &none());
    assert_eq!(sim.get_stats_dropped(), 1);
    assert_eq!(sim.get_active_count(), 0);
}

#[test]
fn stale_target_is_dropped() {
    let mut sim = SimulationState::new(2);
    sim.spawn_wave_to_node(0, 0, 3, 1, 0, 5, 0, 0, 0);
    sim.tick(1, &none());
    assert_eq!(sim.get_stats_spawned(), 1);
    assert_eq!(sim.get_stats_dropped(), 1);
    assert_eq!(sim.get_active_count(), 0);
}

#[test]
fn free_flight_leaves_the_area() {
    let mut sim = SimulationState::new(2);
    sim.spawn_wave(1940, 10, 3000, 10, 1, 0, 20, 0, 0, 0);
    sim.tick(1, &none());
    assert_eq!(sim.get_active_coords(), vec![1960, 10]);
    assert_eq!(sim.get_active_count(), 1);
    sim.tick(1, &none());
    assert_eq!(sim.get_active_count(), 0);
    assert_eq!(sim.get_stats_dropped(), 1);
    assert!(conserved(&sim));
}

#[test]
fn jitter_uses_supplied_draws() {
    let mut sim = SimulationState::new(2);
    sim.add_node(1, 1000, 0, NodeKind::Entry);
    sim.spawn_wave_to_node(0, 0, 0, 2, 0, 10, 4, 0, 0);
    sim.tick(1, &vec![0, 65535]);
    assert_eq!(sim.packet_at(0).unwrap().speed, 6);
    assert_eq!(sim.packet_at(1).unwrap().speed, 13);
    assert_eq!(sim.get_active_coords(), vec![6, 0, 13, 0]);
}

#[test]
fn debug_spawn_scatters() {
    let mut sim = SimulationState::new(3);
    sim.debug_spawn(100, 200, 5, &vec![0, 65535, 32768, 32768]);
    assert_eq!(sim.get_active_count(), 3);
    assert_eq!(sim.get_stats_spawned(), 3);
    let p = sim.packet_at(0).unwrap();
    assert_eq!((p.velocity_x, p.velocity_y), (-2, 1));
    let q = sim.packet_at(1).unwrap();
    assert_eq!((q.velocity_x, q.velocity_y), (0, 0));
    assert_eq!(q.complexity, 10);
    sim.tick(1, &none());
    assert_eq!(sim.packet_at(0).unwrap().x, 98);
    assert_eq!(sim.packet_at(0).unwrap().y, 201);
}

#[test]
fn reset_twice_is_reset_once() {
    let mut sim = SimulationState::new(4);
    pipeline(&mut sim);
    sim.spawn_wave_to_node(0, 0, 0, 3, 100, 10, 0, 0, 0);
    for _ in 0..20 {
        sim.tick(16, &none());
    }
    assert!(sim.get_active_count() > 0);
    sim.reset();
    let once = (sim.get_active_count(), sim.get_current_time(), sim.get_stats_spawned(), sim.get_node_count());
    sim.reset();
    let twice = (sim.get_active_count(), sim.get_current_time(), sim.get_stats_spawned(), sim.get_node_count());
    assert_eq!(once, (0, 0, 0, 5));
    assert_eq!(once, twice);
    assert_eq!(sim.get_stats_processed(), 0);
    assert_eq!(sim.get_stats_dropped(), 0);
    assert_eq!(sim.pending_spawn_count(), 0);
    assert_eq!(sim.get_node_position(12), Some((200, 0)));
    for i in 0..5 {
        assert_eq!(sim.node_at(i).unwrap().current_load(), 0);
        assert_eq!(sim.node_at(i).unwrap().queue_size(), 0);
    }
}

#[test]
fn load_rates_count_service_and_queue() {
    let mut sim = SimulationState::new(8);
    sim.add_node_with_spec(1, 100, 100, NodeKind::Worker, 2, 1000, 2, 0);
    sim.add_node_with_spec(2, 500, 500, NodeKind::Store, 0, 1000, 0, 0);
    sim.spawn_wave_to_node(100, 100, 0, 5, 0, 1, 0, 0, 0);
    sim.tick(1, &none());
    assert_eq!(sim.get_stats_dropped(), 1);
    let rates = sim.get_node_load_rates();
    assert_eq!(rates, vec![LoadRate { numerator: 4, denominator: 2 }, LoadRate { numerator: 0, denominator: 1 }]);
    assert_eq!(sim.node_at(0).unwrap().load_rate(), LoadRate { numerator: 2, denominator: 2 });
}

#[test]
fn node_registry_operations() {
    let mut sim = SimulationState::new(1);
    sim.add_node(5, 1, 2, NodeKind::Balancer);
    sim.add_node(5, 3, 4, NodeKind::Worker);
    sim.update_node_position(5, 9, 9);
    assert_eq!(sim.get_node_position_by_index(0), Some((9, 9)));
    assert_eq!(sim.get_node_position_by_index(1), Some((3, 4)));
    sim.update_node_position(77, 0, 0);
    assert_eq!(sim.get_node_position(5), Some((9, 9)));
    assert_eq!(sim.get_node_position(77), None);
    assert_eq!(sim.get_node_type_by_index(1), Some(NodeKind::Worker));
    assert_eq!(sim.get_node_type_by_index(2), None);
    assert!(sim.node_at(2).is_none());
    sim.clear_nodes();
    assert_eq!(sim.get_node_count(), 0);
}

#[test]
fn clearing_nodes_drops_held_packets() {
    let mut sim = SimulationState::new(4);
    sim.add_node_with_spec(1, 100, 100, NodeKind::Worker, 1, 1000, 1, 0);
    sim.spawn_wave_to_node(100, 100, 0, 2, 0, 1, 0, 0, 0);
    sim.spawn_wave(500, 500, 600, 500, 1, 0, 0, 0, 0, 0);
    sim.tick(1, &none());
    assert_eq!(sim.get_active_count(), 3);
    sim.clear_nodes();
    assert_eq!(sim.get_active_count(), 1);
    assert_eq!(sim.get_stats_dropped(), 2);
    assert!(conserved(&sim));
}

#[test]
fn fast_packet_overshoots_then_returns() {
    let mut sim = SimulationState::new(1);
    sim.add_node(1, 10, 0, NodeKind::Store);
    sim.spawn_wave_to_node(0, 0, 0, 1, 0, 20, 0, 0, 0);
    sim.tick(1, &none());
    assert_eq!(sim.get_active_coords(), vec![20, 0]);
    sim.tick(1, &none());
    assert_eq!(sim.get_active_coords(), vec![0, 0]);
}

#[test]
fn reset_stats_keeps_live_packets_counted() {
    let mut sim = SimulationState::new(4);
    sim.spawn_wave(500, 500, 600, 500, 2, 0, 0, 0, 0, 0);
    sim.tick(1, &none());
    sim.reset_stats();
    assert_eq!(sim.get_stats_spawned(), 2);
    assert_eq!(sim.get_stats_dropped(), 0);
    assert!(conserved(&sim));
}

#[test]
fn empty_pool_emits_nothing() {
    let mut sim = SimulationState::new(0);
    sim.spawn_wave(0, 0, 10, 10, 4, 0, 1, 0, 0, 0);
    sim.tick(16, &none());
    assert_eq!(sim.get_stats_spawned(), 0);
    assert_eq!(sim.pending_spawn_count(), 1);
    sim.debug_spawn(0, 0, 3, &none());
    assert_eq!(sim.get_active_count(), 0);
}

#[test]
fn entry_passes_through_to_first_balancer() {
    let mut sim = SimulationState::new(2);
    sim.add_node(1, 0, 0, NodeKind::Entry);
    sim.add_node(2, 50, 0, NodeKind::Balancer);
    sim.add_node(3, 90, 0, NodeKind::Balancer);
    sim.spawn_wave_to_node(0, 0, 0, 1, 0, 10, 0, 0, 0);
    sim.tick(1, &none());
    let p = sim.packet_at(0).unwrap();
    assert!(p.active);
    assert_eq!(p.target_node_idx, Some(1));
    assert_eq!(p.current_node_idx, None);
    assert_eq!(p.state, PacketState::Moving);
    assert_eq!(sim.node_at(0).unwrap().current_load(), 0);
}

#[test]
fn queued_packets_move_up_oldest_first() {
    let mut sim = SimulationState::new(4);
    sim.add_node_with_spec(1, 100, 100, NodeKind::Store, 1, 10, 5, 0);
    sim.spawn_wave_to_node(100, 100, 0, 3, 0, 1, 0, 0, 0);
    sim.tick(1, &none());
    let store = sim.node_at(0).unwrap();
    assert_eq!(store.processing_packets[0].packet_idx, 0);
    assert_eq!(store.processing_packets[0].remaining_time_ms, 10);
    assert_eq!(store.queue.iter().map(|q| q.packet_idx).collect::<Vec<_>>(), vec![1, 2]);
    sim.tick(10, &none());
    let store = sim.node_at(0).unwrap();
    assert_eq!(store.processing_packets[0].packet_idx, 1);
    assert_eq!(store.queue.iter().map(|q| q.packet_idx).collect::<Vec<_>>(), vec![2]);
}
