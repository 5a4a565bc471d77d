//! The simulation engine: node registry, packet pool, spawn scheduler,
//! motion, admission control and routing, advanced one tick at a time.
use vstd::prelude::*;
use crate::geometry::{heading, step_toward};
use crate::node::{
    Admission, LoadRate, Node, NodeKind, NodeSpec, ProcessingPacket, QueuedPacket, REQUEST_SIZE,
    RESPONSE_SIZE, admitted, bandwidth_of, default_spec, kind_bandwidth, still_in_service,
    with_drop, with_queued, with_service,
};
use crate::packet::{
    Packet, PacketState, PacketType, SpawnTarget, SpawnTask, active_count_of, draw, draw_at,
    idle_packet, jittered_speed_of, lemma_active_count_bounded, lemma_active_count_empty,
    lemma_active_count_full, lemma_active_count_prefix, lemma_active_count_update,
    lemma_total_due_prefix, ramp_target_of, ramped, ramped_all, scatter_velocity_of, spawn_due,
    still_pending, total_due,
};
use crate::routing::{
    Hop, find_next_node_by_type, find_next_server_target, lemma_first_of_kind_range, next_hop,
};
use crate::model::{
    held_count, released,
    EngineView, HEIGHT, MARGIN, SimulationStats, SpawnOutcome, WIDTH, active_coords_of,
    active_details_of, admission_at, after_motion, anchor_target, anchored, arrival_step,
    arrivals_of, arrivals_rel, arrivals_trace, arrives, at_node, completes, deactivated, filled,
    finished_pairs, first_with_id, free_before, handled, in_service, is_cleared_node,
    is_fresh_node, is_reset_of, lemma_first_with_id_range, lemma_first_with_id_stable,
    lemma_free_before_monotone, lemma_promoted_at_step, lemma_queued_among_step, load_rate_of,
    lost_count, moved, promoted_at, promoted_entries, promotion_count, queued_among,
    route_finished, route_one, routed, same_topology, scattered_packet, serviced, serviced_node,
    size_at, spawn_run, spawned, spawned_packet, strands, tick_rel, valid_target,
};

verus! {

/// What fills a free slot.
pub enum SlotFiller {
    /// A packet of a spawn task, one draw each.
    Task(SpawnTask),
    /// A debugging packet scattered from a point, two draws each.
    Scatter { x: i32, y: i32 },
}

impl SlotFiller {
    /// The `k`-th packet this filler makes in a run that draws from `draws`.
    pub open spec fn packet(&self, draws: Seq<u16>, k: int) -> Packet {
        match *self {
            SlotFiller::Task(task) => spawned_packet(task, draw_at(draws, k)),
            SlotFiller::Scatter { x, y } => scattered_packet(x, y, draw_at(draws, 2 * k), draw_at(draws, 2 * k + 1)),
        }
    }

    /// The `k`-th packet this filler makes.
    pub fn make(&self, draws: &Vec<u16>, k: usize) -> (p: Packet)
        ensures
            p == self.packet(draws@, k as int),
            p.wf(),
            p.active,
    {
        match self {
            SlotFiller::Task(task) => {
                let speed = jittered_speed_of(task.base_speed, task.speed_variance, draw(draws, k as u128));
                let (vx, vy, target) = match task.target {
                    SpawnTarget::Node { index } => (0i64, 0i64, Some(index)),
                    SpawnTarget::Point { x, y } => {
                        let v = heading(x as i64 - task.x as i64, y as i64 - task.y as i64, speed);
                        (v.0, v.1, None)
                    },
                };
                Packet {
                    x: task.x as i64,
                    y: task.y as i64,
                    velocity_x: vx,
                    velocity_y: vy,
                    active: true,
                    packet_type: task.packet_type,
                    complexity: task.complexity,
                    target_node_idx: target,
                    speed,
                    state: PacketState::Moving,
                    current_node_idx: None,
                    is_response: false,
                    size: REQUEST_SIZE,
                    origin_server_idx: None,
                }
            },
            SlotFiller::Scatter { x, y } => {
                let rx = draw(draws, 2 * (k as u128));
                let ry = draw(draws, 2 * (k as u128) + 1);
                Packet {
                    x: *x as i64,
                    y: *y as i64,
                    velocity_x: scatter_velocity_of(rx),
                    velocity_y: scatter_velocity_of(ry),
                    active: true,
                    packet_type: PacketType::Normal.code(),
                    complexity: 10,
                    target_node_idx: None,
                    speed: 3,
                    state: PacketState::Moving,
                    current_node_idx: None,
                    is_response: false,
                    size: REQUEST_SIZE,
                    origin_server_idx: None,
                }
            },
        }
    }
}

/// The simulation engine.
pub struct SimulationState {
    packets: Vec<Packet>,
    nodes: Vec<Node>,
    max_packets: usize,
    spawn_queue: Vec<SpawnTask>,
    current_time: u64,
    stats: SimulationStats,
}

impl View for SimulationState {
    type V = EngineView;

    closed spec fn view(&self) -> EngineView {
        EngineView {
            packets: self.packets@,
            nodes: self.nodes@,
            max_packets: self.max_packets as nat,
            tasks: self.spawn_queue@,
            current_time: self.current_time,
            stats: self.stats,
        }
    }
}

impl SimulationState {
    pub open spec fn wf(&self) -> bool {
        self@.wf()
    }

    /// The field-level facts that make up the invariant.
    pub closed spec fn fields_wf(&self) -> bool {
        &&& self.packets@.len() == self.max_packets
        &&& forall|i: int| 0 <= i < self.packets@.len() ==> (#[trigger] self.packets@[i]).wf()
        &&& forall|i: int| 0 <= i < self.nodes@.len() ==> (#[trigger] self.nodes@[i]).wf()
        &&& forall|i: int|
            0 <= i < self.spawn_queue@.len() ==> (#[trigger] self.spawn_queue@[i]).start_time
                <= self.current_time && self.spawn_queue@[i].spawned_count
                <= self.spawn_queue@[i].total_count
        &&& self.stats.packets_spawned == self.stats.packets_processed + self.stats.packets_dropped
            + active_count_of(self.packets@)
    }

    /// The invariant follows from its field-level form.
    proof fn lemma_wf_from_fields(&self)
        requires
            self.fields_wf(),
        ensures
            self.wf(),
    {
        assert forall|i: int| 0 <= i < self@.nodes.len() implies (#[trigger] self@.nodes[i]).wf() by {
            assert(self.nodes@[i].wf());
        }
        assert forall|i: int| 0 <= i < self@.packets.len() implies (#[trigger] self@.packets[i]).wf() by {
            assert(self.packets@[i].wf());
        }
        assert forall|i: int| 0 <= i < self@.tasks.len() implies (#[trigger] self@.tasks[i]).start_time
            <= self@.current_time && self@.tasks[i].spawned_count <= self@.tasks[i].total_count by {
            assert(self.spawn_queue@[i].start_time <= self.current_time);
        }
    }

    /// The invariant, spelled out over the fields.
    proof fn lemma_wf_fields(&self)
        requires
            self.wf(),
        ensures
            self.fields_wf(),
            self.packets@.len() == self.max_packets,
            forall|i: int| 0 <= i < self.packets@.len() ==> (#[trigger] self.packets@[i]).wf(),
            forall|i: int| 0 <= i < self.nodes@.len() ==> (#[trigger] self.nodes@[i]).wf(),
            forall|i: int|
                0 <= i < self.spawn_queue@.len() ==> (#[trigger] self.spawn_queue@[i]).start_time
                    <= self.current_time && self.spawn_queue@[i].spawned_count
                    <= self.spawn_queue@[i].total_count,
            self.stats.packets_spawned == self.stats.packets_processed + self.stats.packets_dropped
                + active_count_of(self.packets@),
    {
        assert forall|i: int| 0 <= i < self.packets@.len() implies (#[trigger] self.packets@[i]).wf() by {
            assert(self@.packets[i].wf());
        }
        assert forall|i: int| 0 <= i < self.nodes@.len() implies (#[trigger] self.nodes@[i]).wf() by {
            assert(self@.nodes[i].wf());
        }
        assert forall|i: int| 0 <= i < self.spawn_queue@.len() implies (#[trigger] self.spawn_queue@[i]).start_time
            <= self.current_time && self.spawn_queue@[i].spawned_count <= self.spawn_queue@[i].total_count by {
            assert(self@.tasks[i].start_time <= self@.current_time);
        }
    }

    /// An engine with `max_packets` free packet slots, no nodes, no tasks,
    /// the clock at zero and all counters at zero.
    pub fn new(max_packets: usize) -> (r: SimulationState)
        ensures
            r.wf(),
            r@.max_packets == max_packets,
            r@.packets =~= Seq::new(max_packets as nat, |i: int| idle_packet()),
            r@.nodes.len() == 0,
            r@.tasks.len() == 0,
            r@.current_time == 0,
            r@.stats == (SimulationStats { packets_spawned: 0, packets_processed: 0, packets_dropped: 0 }),
    {
        let mut packets: Vec<Packet> = Vec::new();
        let mut i: usize = 0;
        while i < max_packets
            invariant
                i <= max_packets,
                packets@ =~= Seq::new(i as nat, |j: int| idle_packet()),
            decreases max_packets - i,
        {
            packets.push(Packet::default());
            i = i + 1;
        }
        proof {
            lemma_active_count_empty(packets@);
        }
        SimulationState {
            packets,
            nodes: Vec::new(),
            max_packets,
            spawn_queue: Vec::new(),
            current_time: 0,
            stats: SimulationStats { packets_spawned: 0, packets_processed: 0, packets_dropped: 0 },
        }
    }

    /// Appends a node of the given kind with that kind's default spec.
    pub fn add_node(&mut self, id: u32, x: i32, y: i32, kind: NodeKind)
        requires
            old(self).wf(),
        ensures
            final(self).wf(),
            final(self)@.nodes.len() == old(self)@.nodes.len() + 1,
            final(self)@.nodes.drop_last() == old(self)@.nodes,
            is_fresh_node(final(self)@.nodes.last(), id, x, y, kind, default_spec(kind)),
            final(self)@.packets == old(self)@.packets,
            final(self)@.tasks == old(self)@.tasks,
            final(self)@.current_time == old(self)@.current_time,
            final(self)@.stats == old(self)@.stats,
            final(self)@.max_packets == old(self)@.max_packets,
    {
        let node = Node::new(id, x, y, kind);
        self.nodes.push(node);
        assert(self@.nodes.drop_last() =~= old(self)@.nodes);
    }

    /// Appends a node with the given capacities and service time; its
    /// bandwidth factor is its kind's.
    pub fn add_node_with_spec(
        &mut self,
        id: u32,
        x: i32,
        y: i32,
        kind: NodeKind,
        max_concurrent: u32,
        service_time_ms: u32,
        queue_capacity: u32,
        cost: u32,
    )
        requires
            old(self).wf(),
        ensures
            final(self).wf(),
            final(self)@.nodes.len() == old(self)@.nodes.len() + 1,
            final(self)@.nodes.drop_last() == old(self)@.nodes,
            is_fresh_node(
                final(self)@.nodes.last(),
                id,
                x,
                y,
                kind,
                NodeSpec {
                    max_concurrent,
                    service_time_ms,
                    queue_capacity,
                    cost,
                    bandwidth_permille: kind_bandwidth(kind),
                },
            ),
            final(self)@.packets == old(self)@.packets,
            final(self)@.tasks == old(self)@.tasks,
            final(self)@.current_time == old(self)@.current_time,
            final(self)@.stats == old(self)@.stats,
            final(self)@.max_packets == old(self)@.max_packets,
    {
        let bandwidth_permille = bandwidth_of(kind);
        let mut node = Node::new(id, x, y, kind);
        node.spec = NodeSpec { max_concurrent, service_time_ms, queue_capacity, cost, bandwidth_permille };
        self.nodes.push(node);
        assert(self@.nodes.drop_last() =~= old(self)@.nodes);
    }

    /// Removes every node. Packets held in a service slot or a queue lose
    /// their node: they are freed and counted as dropped.
    pub fn clear_nodes(&mut self)
        requires
            old(self).wf(),
        ensures
            final(self).wf(),
            final(self)@.nodes.len() == 0,
            final(self)@.packets == old(self)@.packets.map_values(|p: Packet| released(p)),
            final(self)@.stats.packets_dropped == old(self)@.stats.packets_dropped + held_count(old(self)@.packets),
            final(self)@.stats.packets_spawned == old(self)@.stats.packets_spawned,
            final(self)@.stats.packets_processed == old(self)@.stats.packets_processed,
            final(self)@.tasks == old(self)@.tasks,
            final(self)@.current_time == old(self)@.current_time,
            final(self)@.max_packets == old(self)@.max_packets,
    {
        proof {
            self.lemma_wf_fields();
            assert(old(self).packets@.subrange(0, 0) =~= Seq::<Packet>::empty());
        }
        let mut i: usize = 0;
        while i < self.packets.len()
            invariant
                self.fields_wf(),
                i <= self.packets@.len(),
                self.packets@.len() == old(self).packets@.len(),
                forall|j: int| 0 <= j < i ==> self.packets@[j] == released(#[trigger] old(self).packets@[j]),
                forall|j: int| i <= j < self.packets@.len() ==> self.packets@[j] == old(self).packets@[j],
                self.stats.packets_dropped == old(self).stats.packets_dropped + held_count(
                    old(self).packets@.subrange(0, i as int),
                ),
                self.stats.packets_spawned == old(self).stats.packets_spawned,
                self.stats.packets_processed == old(self).stats.packets_processed,
                self.nodes@ == old(self).nodes@,
                self.spawn_queue@ == old(self).spawn_queue@,
                self.current_time == old(self).current_time,
                self.max_packets == old(self).max_packets,
            decreases self.packets@.len() - i,
        {
            assert(old(self).packets@.subrange(0, i as int + 1).drop_last() =~= old(self).packets@.subrange(0, i as int));
            let p = self.packets[i];
            if p.active && !matches!(p.state, PacketState::Moving) {
                self.drop_packet(i);
            }
            i = i + 1;
        }
        self.nodes.clear();
        proof {
            assert(old(self).packets@.subrange(0, i as int) =~= old(self).packets@);
            assert(self.packets@ =~= old(self).packets@.map_values(|p: Packet| released(p)));
            self.lemma_wf_from_fields();
        }
    }

    /// Number of nodes.
    pub fn get_node_count(&self) -> (r: usize)
        ensures
            r == self@.nodes.len(),
    {
        self.nodes.len()
    }

    /// Moves the first node with the given id; an unknown id changes nothing.
    pub fn update_node_position(&mut self, id: u32, x: i32, y: i32)
        requires
            old(self).wf(),
        ensures
            final(self).wf(),
            final(self)@.nodes.len() == old(self)@.nodes.len(),
            first_with_id(old(self)@.nodes, id, old(self)@.nodes.len() as int) is None
                ==> final(self)@.nodes == old(self)@.nodes,
            first_with_id(old(self)@.nodes, id, old(self)@.nodes.len() as int) matches Some(k)
                ==> final(self)@.nodes == old(self)@.nodes.update(k, Node { x, y, ..old(self)@.nodes[k] }),
            final(self)@.packets == old(self)@.packets,
            final(self)@.tasks == old(self)@.tasks,
            final(self)@.current_time == old(self)@.current_time,
            final(self)@.stats == old(self)@.stats,
            final(self)@.max_packets == old(self)@.max_packets,
    {
        let mut found: Option<usize> = None;
        let mut i: usize = 0;
        while i < self.nodes.len()
            invariant
                i <= self.nodes@.len(),
                found matches Some(f) ==> first_with_id(self.nodes@, id, i as int) == Some(f as int),
                found is None ==> first_with_id(self.nodes@, id, i as int) is None,
            decreases self.nodes@.len() - i,
        {
            if found.is_none() && self.nodes[i].id == id {
                found = Some(i);
            }
            i = i + 1;
        }
        proof {
            lemma_first_with_id_range(self.nodes@, id, self.nodes@.len() as int);
        }
        if let Some(k) = found {
            self.nodes[k].x = x;
            self.nodes[k].y = y;
        }
    }

    /// Registers a task that emits `count` packets from `(x, y)`, flying free
    /// toward `(target_x, target_y)`, ramped over `duration_ms`.
    pub fn spawn_wave(
        &mut self,
        x: i32,
        y: i32,
        target_x: i32,
        target_y: i32,
        count: usize,
        duration_ms: u64,
        base_speed: u32,
        speed_variance: u32,
        packet_type: u32,
        complexity: u8,
    )
        requires
            old(self).wf(),
        ensures
            final(self).wf(),
            final(self)@.tasks == old(self)@.tasks.push(
                SpawnTask {
                    x,
                    y,
                    target: SpawnTarget::Point { x: target_x, y: target_y },
                    total_count: count,
                    spawned_count: 0,
                    duration_ms,
                    base_speed,
                    speed_variance,
                    packet_type,
                    complexity,
                    start_time: old(self)@.current_time,
                },
            ),
            final(self)@.packets == old(self)@.packets,
            final(self)@.nodes == old(self)@.nodes,
            final(self)@.current_time == old(self)@.current_time,
            final(self)@.stats == old(self)@.stats,
            final(self)@.max_packets == old(self)@.max_packets,
    {
        let task = SpawnTask {
            x,
            y,
            target: SpawnTarget::Point { x: target_x, y: target_y },
            total_count: count,
            spawned_count: 0,
            duration_ms,
            base_speed,
            speed_variance,
            packet_type,
            complexity,
            start_time: self.current_time,
        };
        self.push_task(task);
    }

    /// Registers a task that emits `count` packets from `(x, y)` toward the
    /// node at `target_node_idx`, ramped over `duration_ms`.
    pub fn spawn_wave_to_node(
        &mut self,
        x: i32,
        y: i32,
        target_node_idx: usize,
        count: usize,
        duration_ms: u64,
        base_speed: u32,
        speed_variance: u32,
        packet_type: u32,
        complexity: u8,
    )
        requires
            old(self).wf(),
        ensures
            final(self).wf(),
            final(self)@.tasks == old(self)@.tasks.push(
                SpawnTask {
                    x,
                    y,
                    target: SpawnTarget::Node { index: target_node_idx },
                    total_count: count,
                    spawned_count: 0,
                    duration_ms,
                    base_speed,
                    speed_variance,
                    packet_type,
                    complexity,
                    start_time: old(self)@.current_time,
                },
            ),
            final(self)@.packets == old(self)@.packets,
            final(self)@.nodes == old(self)@.nodes,
            final(self)@.current_time == old(self)@.current_time,
            final(self)@.stats == old(self)@.stats,
            final(self)@.max_packets == old(self)@.max_packets,
    {
        let task = SpawnTask {
            x,
            y,
            target: SpawnTarget::Node { index: target_node_idx },
            total_count: count,
            spawned_count: 0,
            duration_ms,
            base_speed,
            speed_variance,
            packet_type,
            complexity,
            start_time: self.current_time,
        };
        self.push_task(task);
    }

    /// Queues a task; it leaves the queue once it has emitted all its packets.
    fn push_task(&mut self, task: SpawnTask)
        requires
            old(self).wf(),
            task.start_time == old(self)@.current_time,
            task.spawned_count == 0,
        ensures
            final(self).wf(),
            final(self)@.tasks == old(self)@.tasks.push(task),
            final(self)@.packets == old(self)@.packets,
            final(self)@.nodes == old(self)@.nodes,
            final(self)@.current_time == old(self)@.current_time,
            final(self)@.stats == old(self)@.stats,
            final(self)@.max_packets == old(self)@.max_packets,
    {
        proof {
            self.lemma_wf_fields();
        }
        {
            self.spawn_queue.push(task);
            assert forall|i: int| 0 <= i < self.spawn_queue@.len() implies (#[trigger] self.spawn_queue@[i]).start_time
                <= self.current_time && self.spawn_queue@[i].spawned_count <= self.spawn_queue@[i].total_count by {
                if i < old(self).spawn_queue@.len() {
                    assert(self.spawn_queue@[i] == old(self).spawn_queue@[i]);
                }
            }
        }
        proof {
            self.lemma_wf_from_fields();
        }
    }

    /// Number of spawn tasks still emitting.
    pub fn pending_spawn_count(&self) -> (r: usize)
        ensures
            r == self@.tasks.len(),
    {
        self.spawn_queue.len()
    }

    /// Number of live packets.
    pub fn get_active_count(&self) -> (r: usize)
        ensures
            r == self@.active_count(),
    {
        let mut n: usize = 0;
        let mut i: usize = 0;
        while i < self.packets.len()
            invariant
                i <= self.packets@.len(),
                n == active_count_of(self.packets@.subrange(0, i as int)),
            decreases self.packets@.len() - i,
        {
            proof {
                lemma_active_count_prefix(self.packets@, i as int);
                lemma_active_count_bounded(self.packets@.subrange(0, i as int));
            }
            if self.packets[i].active {
                n = n + 1;
            }
            i = i + 1;
        }
        assert(self.packets@.subrange(0, i as int) =~= self.packets@);
        n
    }

    /// Number of packet slots.
    pub fn get_max_packets(&self) -> (r: usize)
        ensures
            r == self@.max_packets,
    {
        self.max_packets
    }

    /// The simulated clock, in milliseconds.
    pub fn get_current_time(&self) -> (r: u64)
        ensures
            r == self@.current_time,
    {
        self.current_time
    }

    /// Packets emitted since the last reset.
    pub fn get_stats_spawned(&self) -> (r: u64)
        ensures
            r == self@.stats.packets_spawned,
    {
        self.stats.packets_spawned
    }

    /// Round trips completed since the last reset.
    pub fn get_stats_processed(&self) -> (r: u64)
        ensures
            r == self@.stats.packets_processed,
    {
        self.stats.packets_processed
    }

    /// Packets dropped since the last reset.
    pub fn get_stats_dropped(&self) -> (r: u64)
        ensures
            r == self@.stats.packets_dropped,
    {
        self.stats.packets_dropped
    }

    /// Starts the counters over: the packets now live count as emitted, and
    /// nothing as completed or dropped.
    pub fn reset_stats(&mut self)
        requires
            old(self).wf(),
        ensures
            final(self).wf(),
            final(self)@.stats == (SimulationStats {
                packets_spawned: old(self)@.active_count() as u64,
                packets_processed: 0,
                packets_dropped: 0,
            }),
            final(self)@.packets == old(self)@.packets,
            final(self)@.nodes == old(self)@.nodes,
            final(self)@.tasks == old(self)@.tasks,
            final(self)@.current_time == old(self)@.current_time,
            final(self)@.max_packets == old(self)@.max_packets,
    {
        let live = self.get_active_count();
        proof {
            lemma_active_count_bounded(self@.packets);
            self.lemma_wf_fields();
        }
        self.stats = SimulationStats { packets_spawned: live as u64, packets_processed: 0, packets_dropped: 0 };
        proof {
            self.lemma_wf_from_fields();
        }
    }

    /// Frees every packet slot and every service and queue slot, drops the
    /// spawn tasks, and sets the clock and counters to zero. Nodes, their
    /// specs and their lifetime counters stay.
    pub fn reset(&mut self)
        requires
            old(self).wf(),
        ensures
            final(self).wf(),
            is_reset_of(final(self)@, old(self)@),
            final(self)@.active_count() == 0,
    {
        let mut i: usize = 0;
        while i < self.packets.len()
            invariant
                i <= self.packets@.len(),
                self.packets@.len() == old(self)@.packets.len(),
                forall|j: int| 0 <= j < i ==> self.packets@[j] == deactivated(#[trigger] old(self)@.packets[j]),
                forall|j: int| i <= j < self.packets@.len() ==> self.packets@[j] == old(self)@.packets[j],
                self.nodes@ == old(self)@.nodes,
                self.max_packets == old(self).max_packets,
            decreases self.packets@.len() - i,
        {
            let mut p = self.packets[i];
            p.active = false;
            self.packets.set(i, p);
            i = i + 1;
        }
        let mut k: usize = 0;
        while k < self.nodes.len()
            invariant
                k <= self.nodes@.len(),
                self.nodes@.len() == old(self)@.nodes.len(),
                forall|j: int| 0 <= j < k ==> is_cleared_node(#[trigger] self.nodes@[j], old(self)@.nodes[j]),
                forall|j: int| k <= j < self.nodes@.len() ==> self.nodes@[j] == old(self)@.nodes[j],
                forall|j: int| 0 <= j < old(self)@.nodes.len() ==> (#[trigger] old(self)@.nodes[j]).wf(),
                self.packets@.len() == old(self)@.packets.len(),
                forall|j: int| 0 <= j < self.packets@.len() ==> self.packets@[j] == deactivated(#[trigger] old(self)@.packets[j]),
                old(self).wf(),
                self.max_packets == old(self).max_packets,
            decreases self.nodes@.len() - k,
        {
            self.nodes[k].processing_packets.clear();
            self.nodes[k].queue.clear();
            k = k + 1;
        }
        self.spawn_queue.clear();
        self.current_time = 0;
        self.stats = SimulationStats { packets_spawned: 0, packets_processed: 0, packets_dropped: 0 };
        proof {
            assert(self@.packets =~= old(self)@.packets.map_values(|p: Packet| deactivated(p)));
            assert forall|j: int| 0 <= j < self.packets@.len() implies !(#[trigger] self.packets@[j].active) by {
                assert(self.packets@[j] == deactivated(old(self)@.packets[j]));
            }
            lemma_active_count_empty(self.packets@);
            assert forall|j: int| 0 <= j < self.packets@.len() implies (#[trigger] self.packets@[j]).wf() by {
                assert(self.packets@[j] == deactivated(old(self)@.packets[j]));
                assert(old(self)@.packets[j].wf());
            }
            assert forall|j: int| 0 <= j < self.nodes@.len() implies (#[trigger] self.nodes@[j]).wf() by {
                assert(is_cleared_node(self.nodes@[j], old(self)@.nodes[j]));
            }
        }
    }

    /// Position of the first node with the given id.
    pub fn get_node_position(&self, id: u32) -> (r: Option<(i32, i32)>)
        ensures
            first_with_id(self@.nodes, id, self@.nodes.len() as int) is None ==> r is None,
            first_with_id(self@.nodes, id, self@.nodes.len() as int) matches Some(k)
                ==> r == Some((self@.nodes[k].x, self@.nodes[k].y)),
    {
        let mut i: usize = 0;
        while i < self.nodes.len()
            invariant
                i <= self.nodes@.len(),
                first_with_id(self.nodes@, id, i as int) is None,
            decreases self.nodes@.len() - i,
        {
            if self.nodes[i].id == id {
                proof {
                    lemma_first_with_id_stable(self.nodes@, id, i as int + 1, self.nodes@.len() as int);
                }
                return Some((self.nodes[i].x, self.nodes[i].y));
            }
            i = i + 1;
        }
        None
    }

    /// Position of the node at an index.
    pub fn get_node_position_by_index(&self, index: usize) -> (r: Option<(i32, i32)>)
        ensures
            index < self@.nodes.len() ==> r == Some((self@.nodes[index as int].x, self@.nodes[index as int].y)),
            index >= self@.nodes.len() ==> r is None,
    {
        if index < self.nodes.len() {
            Some((self.nodes[index].x, self.nodes[index].y))
        } else {
            None
        }
    }

    /// Kind of the node at an index.
    pub fn get_node_type_by_index(&self, index: usize) -> (r: Option<NodeKind>)
        ensures
            index < self@.nodes.len() ==> r == Some(self@.nodes[index as int].kind),
            index >= self@.nodes.len() ==> r is None,
    {
        if index < self.nodes.len() {
            Some(self.nodes[index].kind)
        } else {
            None
        }
    }

    /// The node at an index, with its runtime state.
    pub fn node_at(&self, index: usize) -> (r: Option<&Node>)
        ensures
            index < self@.nodes.len() ==> r == Some(&self@.nodes[index as int]),
            index >= self@.nodes.len() ==> r is None,
    {
        if index < self.nodes.len() {
            Some(&self.nodes[index])
        } else {
            None
        }
    }

    /// The packet slot at an index.
    pub fn packet_at(&self, index: usize) -> (r: Option<Packet>)
        ensures
            index < self@.packets.len() ==> r == Some(self@.packets[index as int]),
            index >= self@.packets.len() ==> r is None,
    {
        if index < self.packets.len() {
            Some(self.packets[index])
        } else {
            None
        }
    }

    /// Coordinates of the live packets as flat `x, y` pairs, in pool order.
    pub fn get_active_coords(&self) -> (r: Vec<i64>)
        ensures
            r@ == active_coords_of(self@.packets),
    {
        let mut coords: Vec<i64> = Vec::new();
        let mut i: usize = 0;
        while i < self.packets.len()
            invariant
                i <= self.packets@.len(),
                coords@ == active_coords_of(self.packets@.subrange(0, i as int)),
            decreases self.packets@.len() - i,
        {
            assert(self.packets@.subrange(0, i as int + 1).drop_last() =~= self.packets@.subrange(0, i as int));
            let p = self.packets[i];
            if p.active {
                coords.push(p.x);
                coords.push(p.y);
            }
            i = i + 1;
        }
        assert(self.packets@.subrange(0, i as int) =~= self.packets@);
        coords
    }

    /// `x, y, is_response (0 or 1), size` of each live packet, flat, in pool
    /// order.
    pub fn get_active_packet_details(&self) -> (r: Vec<i64>)
        ensures
            r@ == active_details_of(self@.packets),
    {
        let mut details: Vec<i64> = Vec::new();
        let mut i: usize = 0;
        while i < self.packets.len()
            invariant
                i <= self.packets@.len(),
                details@ == active_details_of(self.packets@.subrange(0, i as int)),
            decreases self.packets@.len() - i,
        {
            assert(self.packets@.subrange(0, i as int + 1).drop_last() =~= self.packets@.subrange(0, i as int));
            let p = self.packets[i];
            if p.active {
                details.push(p.x);
                details.push(p.y);
                details.push(if p.is_response { 1 } else { 0 });
                details.push(p.size as i64);
            }
            i = i + 1;
        }
        assert(self.packets@.subrange(0, i as int) =~= self.packets@);
        details
    }

    /// The load rate of each node, in registry order.
    pub fn get_node_load_rates(&self) -> (r: Vec<LoadRate>)
        requires
            self.wf(),
        ensures
            r@.len() == self@.nodes.len(),
            forall|i: int| 0 <= i < r@.len() ==> #[trigger] r@[i] == load_rate_of(self@.nodes[i]),
    {
        proof {
            self.lemma_wf_fields();
        }
        let mut rates: Vec<LoadRate> = Vec::new();
        let mut i: usize = 0;
        while i < self.nodes.len()
            invariant
                i <= self.nodes@.len(),
                rates@.len() == i,
                forall|j: int| 0 <= j < i ==> #[trigger] rates@[j] == load_rate_of(self.nodes@[j]),
                forall|j: int| 0 <= j < self.nodes@.len() ==> (#[trigger] self.nodes@[j]).wf(),
            decreases self.nodes@.len() - i,
        {
            let n = &self.nodes[i];
            assert(n.wf());
            let rate = if n.spec.max_concurrent == 0 {
                LoadRate { numerator: 0, denominator: 1 }
            } else {
                LoadRate {
                    numerator: n.processing_packets.len() as u64 + n.queue.len() as u64,
                    denominator: n.spec.max_concurrent as u64,
                }
            };
            rates.push(rate);
            i = i + 1;
        }
        rates
    }

    /// The worker a response returns through.
    fn anchor_worker(&self, p: Packet) -> (r: Option<usize>)
        ensures
            r matches Some(t) ==> anchor_target(self.nodes@, p) == Some(t as int) && t < self.nodes@.len(),
            r is None ==> anchor_target(self.nodes@, p) is None,
    {
        proof {
            lemma_first_of_kind_range(self.nodes@, NodeKind::Worker, self.nodes@.len() as int);
        }
        match p.origin_server_idx {
            Some(a) => if a < self.nodes.len() {
                Some(a)
            } else {
                find_next_node_by_type(&self.nodes, NodeKind::Worker)
            },
            None => find_next_node_by_type(&self.nodes, NodeKind::Worker),
        }
    }

    /// Sends a live packet on from node `node_idx`: toward the next node of
    /// its route, or out of the pool when its trip completes (counted as
    /// processed) or no next node exists (counted as dropped).
    fn route_packet_to_next(&mut self, packet_idx: usize, node_idx: usize)
        requires
            old(self).fields_wf(),
            packet_idx < old(self).packets@.len(),
            node_idx < old(self).nodes@.len(),
            old(self).packets@[packet_idx as int].active,
        ensures
            final(self).fields_wf(),
            final(self).packets@ == old(self).packets@.update(
                packet_idx as int,
                routed(old(self).nodes@, node_idx as int, old(self).packets@[packet_idx as int]),
            ),
            final(self).nodes@ == old(self).nodes@,
            final(self).spawn_queue@ == old(self).spawn_queue@,
            final(self).current_time == old(self).current_time,
            final(self).max_packets == old(self).max_packets,
            final(self).stats.packets_spawned == old(self).stats.packets_spawned,
            final(self).stats.packets_processed == old(self).stats.packets_processed + if completes(
                old(self).nodes@,
                node_idx as int,
                old(self).packets@[packet_idx as int],
            ) {
                1int
            } else {
                0int
            },
            final(self).stats.packets_dropped == old(self).stats.packets_dropped + if strands(
                old(self).nodes@,
                node_idx as int,
                old(self).packets@[packet_idx as int],
            ) {
                1int
            } else {
                0int
            },
    {
        let p = self.packets[packet_idx];
        let at_x = self.nodes[node_idx].x;
        let at_y = self.nodes[node_idx].y;
        let hop = next_hop(self.nodes[node_idx].kind, p.is_response);
        let mut q = p;
        let target: Option<usize> = match hop {
            Hop::First(k) => find_next_node_by_type(&self.nodes, k),
            Hop::LeastLoadedWorker => find_next_server_target(&self.nodes),
            Hop::AnchorWorker => self.anchor_worker(p),
            Hop::TurnAround => {
                q.is_response = true;
                q.size = RESPONSE_SIZE;
                self.anchor_worker(p)
            },
            Hop::Complete => None,
        };
        assert(q.wf());
        match target {
            Some(t) => {
                q.target_node_idx = Some(t);
                q.current_node_idx = None;
                q.state = PacketState::Moving;
                q.x = at_x as i64;
                q.y = at_y as i64;
                self.packets.set(packet_idx, q);
            },
            None => {
                q.active = false;
                proof {
                    lemma_active_count_update(self.packets@, packet_idx as int, q);
                }
                self.packets.set(packet_idx, q);
                match hop {
                    Hop::Complete => {
                        self.stats.packets_processed = self.stats.packets_processed + 1;
                    },
                    _ => {
                        self.stats.packets_dropped = self.stats.packets_dropped + 1;
                    },
                }
            },
        }
        proof {
            lemma_active_count_update(old(self).packets@, packet_idx as int, self.packets@[packet_idx as int]);
            assert forall|i: int| 0 <= i < self.packets@.len() implies (#[trigger] self.packets@[i]).wf() by {
                if i != packet_idx {
                    assert(self.packets@[i] == old(self).packets@[i]);
                }
            }
        }
    }

    /// A packet in transit has reached its target: pass-through nodes route
    /// it on at once; other nodes serve it, queue it or drop it.
    fn handle_packet_arrival(&mut self, packet_idx: usize)
        requires
            old(self).fields_wf(),
            packet_idx < old(self).packets@.len(),
            old(self).packets@[packet_idx as int].active,
        ensures
            final(self).fields_wf(),
            handled(old(self)@, final(self)@, packet_idx),
            same_topology(final(self).nodes@, old(self).nodes@),
            final(self).spawn_queue@ == old(self).spawn_queue@,
            final(self).current_time == old(self).current_time,
            final(self).max_packets == old(self).max_packets,
            final(self).stats.packets_spawned == old(self).stats.packets_spawned,
            ({
                let p = old(self).packets@[packet_idx as int];
                let nodes = old(self).nodes@;
                match valid_target(nodes, p) {
                    None => {
                        &&& final(self).packets@ == old(self).packets@.update(packet_idx as int, deactivated(p))
                        &&& final(self).nodes@ == nodes
                        &&& final(self).stats.packets_processed == old(self).stats.packets_processed
                        &&& final(self).stats.packets_dropped == old(self).stats.packets_dropped + 1
                    },
                    Some(t) => if nodes[t].spec.service_time_ms == 0 {
                        &&& final(self).packets@ == old(self).packets@.update(
                            packet_idx as int,
                            routed(nodes, t, at_node(p, nodes, t)),
                        )
                        &&& final(self).nodes@ == nodes
                        &&& final(self).stats.packets_processed == old(self).stats.packets_processed
                            + if completes(nodes, t, p) { 1int } else { 0int }
                        &&& final(self).stats.packets_dropped == old(self).stats.packets_dropped
                            + if strands(nodes, t, p) { 1int } else { 0int }
                    } else {
                        let q = anchored(p, nodes, t);
                        &&& final(self).nodes@.len() == nodes.len()
                        &&& forall|j: int| 0 <= j < nodes.len() && j != t ==> final(self).nodes@[j] == nodes[j]
                        &&& final(self).stats.packets_processed == old(self).stats.packets_processed
                        &&& match admission_at(nodes[t]) {
                            Admission::Serve => {
                                &&& final(self).packets@ == old(self).packets@.update(
                                    packet_idx as int,
                                    Packet { state: PacketState::Processing, ..q },
                                )
                                &&& with_service(nodes[t], final(self).nodes@[t], admitted(nodes[t].spec, packet_idx, p.size))
                                &&& final(self).stats.packets_dropped == old(self).stats.packets_dropped
                            },
                            Admission::Enqueue => {
                                &&& final(self).packets@ == old(self).packets@.update(
                                    packet_idx as int,
                                    Packet { state: PacketState::Queued, ..q },
                                )
                                &&& with_queued(nodes[t], final(self).nodes@[t], packet_idx)
                                &&& final(self).stats.packets_dropped == old(self).stats.packets_dropped
                            },
                            Admission::Reject => {
                                &&& final(self).packets@ == old(self).packets@.update(packet_idx as int, deactivated(q))
                                &&& with_drop(nodes[t], final(self).nodes@[t])
                                &&& final(self).stats.packets_dropped == old(self).stats.packets_dropped + 1
                            },
                        }
                    },
                }
            }),
    {
        let p = self.packets[packet_idx];
        let t: usize = match p.target_node_idx {
            Some(t) => {
                if t >= self.nodes.len() {
                    self.drop_packet(packet_idx);
                    return;
                }
                t
            },
            None => {
                self.drop_packet(packet_idx);
                return;
            },
        };
        let mut q = p;
        q.x = self.nodes[t].x as i64;
        q.y = self.nodes[t].y as i64;
        q.current_node_idx = Some(t);
        if self.nodes[t].spec.service_time_ms == 0 {
            self.packets.set(packet_idx, q);
            proof {
                lemma_active_count_update(old(self).packets@, packet_idx as int, q);
                assert forall|i: int| 0 <= i < self.packets@.len() implies (#[trigger] self.packets@[i]).wf() by {
                    if i != packet_idx {
                        assert(self.packets@[i] == old(self).packets@[i]);
                    }
                }
                assert(self.packets@.update(packet_idx as int, routed(self.nodes@, t as int, q))
                    == old(self).packets@.update(packet_idx as int, routed(self.nodes@, t as int, q)));
            }
            self.route_packet_to_next(packet_idx, t);
            return;
        }
        if self.nodes[t].kind == NodeKind::Worker && !p.is_response {
            q.origin_server_idx = Some(t);
        }
        proof {
            self.lemma_wf_fields_node(t as int);
        }
        match self.nodes[t].admission() {
            Admission::Serve => {
                let st = self.nodes[t].service_time_for(p.size);
                q.state = PacketState::Processing;
                self.nodes[t].processing_packets.push(
                    ProcessingPacket { packet_idx, remaining_time_ms: st, packet_size: p.size },
                );
                self.set_packet_keeping_count(packet_idx, q);
            },
            Admission::Enqueue => {
                q.state = PacketState::Queued;
                self.nodes[t].queue.push(QueuedPacket { packet_idx });
                self.set_packet_keeping_count(packet_idx, q);
            },
            Admission::Reject => {
                let d = self.nodes[t].total_dropped;
                self.nodes[t].total_dropped = if d < u32::MAX { d + 1 } else { u32::MAX };
                self.packets.set(packet_idx, q);
                proof {
                    lemma_active_count_update(old(self).packets@, packet_idx as int, q);
                    assert forall|i: int| 0 <= i < self.packets@.len() implies (#[trigger] self.packets@[i]).wf() by {
                        if i != packet_idx {
                            assert(self.packets@[i] == old(self).packets@[i]);
                        }
                    }
                }
                self.drop_packet(packet_idx);
                assert(self.packets@ =~= old(self).packets@.update(packet_idx as int, deactivated(q)));
            },
        }
        proof {
            assert forall|j: int| 0 <= j < self.nodes@.len() implies (#[trigger] self.nodes@[j]).wf() by {
                if j != t {
                    assert(self.nodes@[j] == old(self).nodes@[j]);
                }
            }
        }
    }

    /// Node `j` satisfies its part of the invariant.
    proof fn lemma_wf_fields_node(&self, j: int)
        requires
            self.fields_wf(),
            0 <= j < self.nodes@.len(),
        ensures
            self.nodes@[j].wf(),
    {
    }

    /// Replaces a live packet by another live, consistent one.
    fn set_packet_keeping_count(&mut self, packet_idx: usize, q: Packet)
        requires
            packet_idx < old(self).packets@.len(),
            old(self).packets@[packet_idx as int].active,
            q.active,
            q.wf(),
            forall|i: int| 0 <= i < old(self).packets@.len() ==> (#[trigger] old(self).packets@[i]).wf(),
        ensures
            final(self).packets@ == old(self).packets@.update(packet_idx as int, q),
            active_count_of(final(self).packets@) == active_count_of(old(self).packets@),
            forall|i: int| 0 <= i < final(self).packets@.len() ==> (#[trigger] final(self).packets@[i]).wf(),
            final(self).nodes@ == old(self).nodes@,
            final(self).spawn_queue@ == old(self).spawn_queue@,
            final(self).current_time == old(self).current_time,
            final(self).max_packets == old(self).max_packets,
            final(self).stats == old(self).stats,
    {
        proof {
            lemma_active_count_update(self.packets@, packet_idx as int, q);
        }
        self.packets.set(packet_idx, q);
        proof {
            assert forall|i: int| 0 <= i < self.packets@.len() implies (#[trigger] self.packets@[i]).wf() by {
                if i != packet_idx {
                    assert(self.packets@[i] == old(self).packets@[i]);
                }
            }
        }
    }

    /// Frees the slot of a live packet and counts it as dropped.
    fn drop_packet(&mut self, packet_idx: usize)
        requires
            old(self).fields_wf(),
            packet_idx < old(self).packets@.len(),
            old(self).packets@[packet_idx as int].active,
        ensures
            final(self).fields_wf(),
            final(self).packets@ == old(self).packets@.update(
                packet_idx as int,
                deactivated(old(self).packets@[packet_idx as int]),
            ),
            final(self).nodes@ == old(self).nodes@,
            final(self).spawn_queue@ == old(self).spawn_queue@,
            final(self).current_time == old(self).current_time,
            final(self).max_packets == old(self).max_packets,
            final(self).stats.packets_spawned == old(self).stats.packets_spawned,
            final(self).stats.packets_processed == old(self).stats.packets_processed,
            final(self).stats.packets_dropped == old(self).stats.packets_dropped + 1,
    {
        let mut q = self.packets[packet_idx];
        q.active = false;
        proof {
            lemma_active_count_update(self.packets@, packet_idx as int, q);
        }
        self.packets.set(packet_idx, q);
        self.stats.packets_dropped = self.stats.packets_dropped + 1;
        proof {
            assert forall|i: int| 0 <= i < self.packets@.len() implies (#[trigger] self.packets@[i]).wf() by {
                if i != packet_idx {
                    assert(self.packets@[i] == old(self).packets@[i]);
                }
            }
        }
    }

    /// Moves queued packets of node `i` into its free service slots, oldest
    /// first, each with the service time of its size; a live packet that
    /// moves up is marked as in service.
    fn promote_queued(&mut self, i: usize)
        requires
            old(self).fields_wf(),
            i < old(self).nodes@.len(),
        ensures
            final(self).fields_wf(),
            final(self).nodes@.len() == old(self).nodes@.len(),
            forall|j: int| 0 <= j < old(self).nodes@.len() && j != i ==> final(self).nodes@[j] == old(self).nodes@[j],
            final(self).nodes@[i as int].same_topology(&old(self).nodes@[i as int]),
            final(self).nodes@[i as int].total_processed == old(self).nodes@[i as int].total_processed,
            final(self).nodes@[i as int].total_dropped == old(self).nodes@[i as int].total_dropped,
            ({
                let n = old(self).nodes@[i as int];
                let free = n.spec.max_concurrent - n.processing_packets@.len();
                let k = if free < n.queue@.len() { free } else { n.queue@.len() as int };
                &&& final(self).nodes@[i as int].queue@ == n.queue@.subrange(k, n.queue@.len() as int)
                &&& final(self).nodes@[i as int].processing_packets@ == n.processing_packets@ + Seq::new(
                    k as nat,
                    |q: int| admitted(n.spec, n.queue@[q].packet_idx, size_at(old(self).packets@, n.queue@[q].packet_idx)),
                )
                &&& final(self).packets@.len() == old(self).packets@.len()
                &&& forall|j: int|
                    0 <= j < old(self).packets@.len() ==> #[trigger] final(self).packets@[j] == if queued_among(n, k, j)
                        && old(self).packets@[j].active {
                        in_service(old(self).packets@[j])
                    } else {
                        old(self).packets@[j]
                    }
            }),
            final(self).spawn_queue@ == old(self).spawn_queue@,
            final(self).current_time == old(self).current_time,
            final(self).max_packets == old(self).max_packets,
            final(self).stats == old(self).stats,
    {
        proof {
            self.lemma_wf_fields_node(i as int);
        }
        let ghost n0 = old(self).nodes@[i as int];
        let ghost p0 = old(self).packets@;
        let ghost moved: int = 0;
        proof {
            assert(n0.queue@.subrange(0, n0.queue@.len() as int) =~= n0.queue@);
            assert(n0.processing_packets@ + Seq::new(0, |q: int| admitted(n0.spec, n0.queue@[q].packet_idx, size_at(p0, n0.queue@[q].packet_idx))) =~= n0.processing_packets@);
        }
        while self.nodes[i].processing_packets.len() < self.nodes[i].spec.max_concurrent as usize
            && self.nodes[i].queue.len() > 0
            invariant
                self.fields_wf(),
                self.nodes@.len() == old(self).nodes@.len(),
                i < self.nodes@.len(),
                forall|j: int| 0 <= j < old(self).nodes@.len() && j != i ==> self.nodes@[j] == old(self).nodes@[j],
                self.nodes@[i as int].same_topology(&n0),
                self.nodes@[i as int].total_processed == n0.total_processed,
                self.nodes@[i as int].total_dropped == n0.total_dropped,
                0 <= moved <= n0.queue@.len(),
                self.nodes@[i as int].queue@ == n0.queue@.subrange(moved, n0.queue@.len() as int),
                self.nodes@[i as int].processing_packets@ == n0.processing_packets@ + Seq::new(
                    moved as nat,
                    |q: int| admitted(n0.spec, n0.queue@[q].packet_idx, size_at(p0, n0.queue@[q].packet_idx)),
                ),
                self.packets@.len() == p0.len(),
                forall|j: int|
                    0 <= j < p0.len() ==> #[trigger] self.packets@[j] == if queued_among(n0, moved, j) && p0[j].active {
                        in_service(p0[j])
                    } else {
                        p0[j]
                    },
                self.spawn_queue@ == old(self).spawn_queue@,
                self.current_time == old(self).current_time,
                self.max_packets == old(self).max_packets,
                self.stats == old(self).stats,
            decreases self.nodes@[i as int].queue@.len(),
        {
            proof {
                self.lemma_wf_fields_node(i as int);
            }
            let qp = self.nodes[i].queue.remove(0);
            let ghost idx = qp.packet_idx;
            assert(idx == n0.queue@[moved].packet_idx);
            let size: u32 = if qp.packet_idx < self.packets.len() {
                self.packets[qp.packet_idx].size
            } else {
                REQUEST_SIZE
            };
            proof {
                if idx < self.packets@.len() {
                    assert(self.packets@[idx as int].wf());
                    assert(self.packets@[idx as int].size == p0[idx as int].size);
                }
                assert(size == size_at(p0, idx));
            }
            let st = self.nodes[i].service_time_for(size);
            self.nodes[i].processing_packets.push(
                ProcessingPacket { packet_idx: qp.packet_idx, remaining_time_ms: st, packet_size: size },
            );
            let ghost before = self.packets@;
            if qp.packet_idx < self.packets.len() && self.packets[qp.packet_idx].active {
                let mut p = self.packets[qp.packet_idx];
                p.state = PacketState::Processing;
                self.set_packet_keeping_count(qp.packet_idx, p);
            }
            proof {
                assert forall|j: int| 0 <= j < p0.len() implies #[trigger] self.packets@[j] == if queued_among(n0, moved + 1, j)
                    && p0[j].active {
                    in_service(p0[j])
                } else {
                    p0[j]
                } by {
                    lemma_queued_among_step(n0, moved, j);
                    assert(before[j] == if queued_among(n0, moved, j) && p0[j].active { in_service(p0[j]) } else { p0[j] });
                }
                moved = moved + 1;
                assert(self.nodes@[i as int].queue@ =~= n0.queue@.subrange(moved, n0.queue@.len() as int));
                assert(self.nodes@[i as int].processing_packets@ =~= n0.processing_packets@ + Seq::new(
                    moved as nat,
                    |q: int| admitted(n0.spec, n0.queue@[q].packet_idx, size_at(p0, n0.queue@[q].packet_idx)),
                ));
                assert forall|j: int| 0 <= j < self.nodes@.len() implies (#[trigger] self.nodes@[j]).wf() by {
                    if j != i {
                        assert(self.nodes@[j] == old(self).nodes@[j]);
                        assert(old(self).nodes@[j].wf());
                    }
                }
            }
        }
    }

    /// The service phase: every node runs its service entries for `delta`
    /// milliseconds and moves queued packets up into the freed slots.
    /// Returns `(node, packet)` for every service that ended, node by node.
    fn process_nodes(&mut self, delta: u64) -> (finished: Vec<(usize, usize)>)
        requires
            old(self).fields_wf(),
        ensures
            final(self).fields_wf(),
            serviced(old(self)@, final(self)@, delta),
            finished@ == finished_pairs(old(self)@.nodes, delta),
            forall|j: int| 0 <= j < finished@.len() ==> (#[trigger] finished@[j]).0 < final(self).nodes@.len(),
            same_topology(final(self).nodes@, old(self).nodes@),
            final(self).spawn_queue@ == old(self).spawn_queue@,
            final(self).current_time == old(self).current_time,
            final(self).max_packets == old(self).max_packets,
            final(self).stats == old(self).stats,
    {
        let ghost s1 = old(self)@;
        let mut completed: Vec<(usize, usize)> = Vec::new();
        let mut i: usize = 0;
        proof {
            assert(s1.nodes.subrange(0, 0) =~= Seq::<Node>::empty());
        }
        while i < self.nodes.len()
            invariant
                self.fields_wf(),
                self.nodes@.len() == s1.nodes.len(),
                i <= self.nodes@.len(),
                forall|j: int| 0 <= j < i ==> serviced_node(s1.nodes[j], #[trigger] self.nodes@[j], s1.packets, delta),
                forall|j: int| i <= j < s1.nodes.len() ==> #[trigger] self.nodes@[j] == s1.nodes[j],
                self.packets@.len() == s1.packets.len(),
                forall|j: int|
                    0 <= j < s1.packets.len() ==> #[trigger] self.packets@[j] == if promoted_at(s1.nodes, delta, i as int, j)
                        && s1.packets[j].active {
                        in_service(s1.packets[j])
                    } else {
                        s1.packets[j]
                    },
                completed@ == finished_pairs(s1.nodes.subrange(0, i as int), delta),
                forall|j: int| 0 <= j < completed@.len() ==> (#[trigger] completed@[j]).0 < s1.nodes.len(),
                self.spawn_queue@ == old(self).spawn_queue@,
                self.current_time == old(self).current_time,
                self.max_packets == old(self).max_packets,
                self.stats == old(self).stats,
                s1 == old(self)@,
            decreases self.nodes@.len() - i,
        {
            proof {
                self.lemma_wf_fields_node(i as int);
            }
            let ghost n0 = s1.nodes[i as int];
            let ghost pk = self.packets@;
            let done = self.nodes[i].advance(delta);
            let ghost base = completed@;
            let mut d: usize = 0;
            while d < done.len()
                invariant
                    d <= done@.len(),
                    i < s1.nodes.len(),
                    completed@ == base + done@.subrange(0, d as int).map_values(|j: usize| (i, j)),
                    forall|j: int| 0 <= j < completed@.len() ==> (#[trigger] completed@[j]).0 < s1.nodes.len(),
                decreases done@.len() - d,
            {
                completed.push((i, done[d]));
                proof {
                    assert(completed@ =~= base + done@.subrange(0, d as int + 1).map_values(|j: usize| (i, j)));
                }
                d = d + 1;
            }
            let ghost n1 = self.nodes@[i as int];
            self.promote_queued(i);
            proof {
                let k = promotion_count(n0, delta);
                assert(n1.processing_packets@ == still_in_service(n0.processing_packets@, delta));
                assert forall|j: int| 0 <= j < s1.packets.len() implies #[trigger] self.packets@[j] == if promoted_at(
                    s1.nodes,
                    delta,
                    i as int + 1,
                    j,
                ) && s1.packets[j].active {
                    in_service(s1.packets[j])
                } else {
                    s1.packets[j]
                } by {
                    lemma_promoted_at_step(s1.nodes, delta, i as int, j);
                    assert(pk[j].active == s1.packets[j].active);
                }
                assert forall|q: int| 0 <= q < k implies size_at(pk, #[trigger] n0.queue@[q].packet_idx) == size_at(
                    s1.packets,
                    n0.queue@[q].packet_idx,
                ) by {
                    let idx = n0.queue@[q].packet_idx;
                    if idx < pk.len() {
                        assert(pk[idx as int].size == s1.packets[idx as int].size);
                    }
                }
                assert(self.nodes@[i as int].processing_packets@ =~= still_in_service(n0.processing_packets@, delta)
                    + promoted_entries(n0, s1.packets, delta));
                assert(serviced_node(n0, self.nodes@[i as int], s1.packets, delta));
                let pre = s1.nodes.subrange(0, i as int + 1);
                assert(pre.drop_last() =~= s1.nodes.subrange(0, i as int));
                assert(pre.last() == n0);
                assert(done@.subrange(0, done@.len() as int) =~= done@);
                assert(completed@ =~= finished_pairs(pre, delta));
            }
            i = i + 1;
        }
        proof {
            assert(s1.nodes.subrange(0, i as int) =~= s1.nodes);
            assert(serviced(s1, self@, delta));
        }
        completed
    }

    /// Routes on, in order, the packets that finished service; those no
    /// longer live are passed over.
    fn route_finished_packets(&mut self, pairs: &Vec<(usize, usize)>)
        requires
            old(self).fields_wf(),
            forall|j: int| 0 <= j < pairs@.len() ==> (#[trigger] pairs@[j]).0 < old(self).nodes@.len(),
        ensures
            final(self).fields_wf(),
            final(self)@ == route_finished(old(self)@, pairs@),
            final(self).nodes@ == old(self).nodes@,
            final(self).spawn_queue@ == old(self).spawn_queue@,
            final(self).current_time == old(self).current_time,
            final(self).max_packets == old(self).max_packets,
            final(self).stats.packets_spawned == old(self).stats.packets_spawned,
            final(self).stats.packets_processed >= old(self).stats.packets_processed,
            final(self).stats.packets_dropped >= old(self).stats.packets_dropped,
    {
        let mut k: usize = 0;
        proof {
            assert(pairs@.subrange(0, 0) =~= Seq::<(usize, usize)>::empty());
        }
        while k < pairs.len()
            invariant
                self.fields_wf(),
                k <= pairs@.len(),
                self@ == route_finished(old(self)@, pairs@.subrange(0, k as int)),
                self.nodes@ == old(self).nodes@,
                self.spawn_queue@ == old(self).spawn_queue@,
                self.current_time == old(self).current_time,
                self.max_packets == old(self).max_packets,
                self.stats.packets_spawned == old(self).stats.packets_spawned,
                self.stats.packets_processed >= old(self).stats.packets_processed,
                self.stats.packets_dropped >= old(self).stats.packets_dropped,
                forall|j: int| 0 <= j < pairs@.len() ==> (#[trigger] pairs@[j]).0 < old(self).nodes@.len(),
            decreases pairs@.len() - k,
        {
            let (ni, pi) = pairs[k];
            proof {
                let sub = pairs@.subrange(0, k as int + 1);
                assert(sub.drop_last() =~= pairs@.subrange(0, k as int));
                assert(sub.last() == pairs@[k as int]);
            }
            if pi < self.packets.len() && self.packets[pi].active {
                let ghost before = self@;
                self.route_packet_to_next(pi, ni);
                proof {
                    assert(self@.packets == route_one(before, ni, pi).packets);
                    assert(self@.stats == route_one(before, ni, pi).stats);
                    assert(self@ == route_one(before, ni, pi));
                }
            }
            k = k + 1;
        }
        proof {
            assert(pairs@.subrange(0, k as int) =~= pairs@);
        }
    }

    /// Moves every packet in transit by one tick and returns, in pool order,
    /// those that have reached their target.
    #[verifier::rlimit(60)]
    fn move_packets(&mut self) -> (arrived: Vec<usize>)
        requires
            old(self).fields_wf(),
        ensures
            final(self).fields_wf(),
            final(self).packets@.len() == old(self).packets@.len(),
            forall|i: int|
                0 <= i < old(self).packets@.len() ==> final(self).packets@[i] == after_motion(
                    #[trigger] old(self).packets@[i],
                    old(self).nodes@,
                ),
            forall|j: int|
                0 <= j < arrived@.len() ==> (#[trigger] arrived@[j]) < old(self).packets@.len() && arrives(
                    old(self).packets@[arrived@[j] as int],
                    old(self).nodes@,
                ),
            forall|i: int|
                0 <= i < old(self).packets@.len() && arrives(#[trigger] old(self).packets@[i], old(self).nodes@)
                    ==> arrived@.contains(i as usize),
            arrived@ == arrivals_of(old(self).packets@, old(self).nodes@),
            final(self).stats.packets_dropped == old(self).stats.packets_dropped + lost_count(
                old(self).packets@,
                old(self).nodes@,
            ),
            final(self).nodes@ == old(self).nodes@,
            final(self).spawn_queue@ == old(self).spawn_queue@,
            final(self).current_time == old(self).current_time,
            final(self).max_packets == old(self).max_packets,
            final(self).stats.packets_spawned == old(self).stats.packets_spawned,
            final(self).stats.packets_processed == old(self).stats.packets_processed,
            final(self).stats.packets_dropped >= old(self).stats.packets_dropped,
    {
        let mut arrived: Vec<usize> = Vec::new();
        let mut i: usize = 0;
        while i < self.packets.len()
            invariant
                self.fields_wf(),
                i <= self.packets@.len(),
                self.packets@.len() == old(self).packets@.len(),
                forall|j: int| 0 <= j < i ==> self.packets@[j] == after_motion(#[trigger] old(self).packets@[j], old(self).nodes@),
                forall|j: int| i <= j < self.packets@.len() ==> self.packets@[j] == old(self).packets@[j],
                forall|j: int|
                    0 <= j < arrived@.len() ==> (#[trigger] arrived@[j]) < i && arrives(
                        old(self).packets@[arrived@[j] as int],
                        old(self).nodes@,
                    ),
                forall|j: int|
                    0 <= j < i && arrives(#[trigger] old(self).packets@[j], old(self).nodes@)
                        ==> arrived@.contains(j as usize),
                self.nodes@ == old(self).nodes@,
                self.spawn_queue@ == old(self).spawn_queue@,
                self.current_time == old(self).current_time,
                self.max_packets == old(self).max_packets,
                self.stats.packets_spawned == old(self).stats.packets_spawned,
                self.stats.packets_processed == old(self).stats.packets_processed,
                self.stats.packets_dropped >= old(self).stats.packets_dropped,
                arrived@ == arrivals_of(old(self).packets@.subrange(0, i as int), old(self).nodes@),
                self.stats.packets_dropped == old(self).stats.packets_dropped + lost_count(
                    old(self).packets@.subrange(0, i as int),
                    old(self).nodes@,
                ),
            decreases self.packets@.len() - i,
        {
            assert(old(self).packets@.subrange(0, i as int + 1).drop_last() =~= old(self).packets@.subrange(0, i as int));
            let p = self.packets[i];
            let ghost arrived_before = arrived@;
            if p.active && matches!(p.state, PacketState::Moving) {
                match p.target_node_idx {
                    Some(t) => {
                        if t < self.nodes.len() {
                            match step_toward(p.x, p.y, self.nodes[t].x, self.nodes[t].y, p.speed) {
                                Some(q) => {
                                    let mut m = p;
                                    m.x = q.0;
                                    m.y = q.1;
                                    self.set_packet_keeping_count(i, m);
                                },
                                None => {
                                    arrived.push(i);
                                },
                            }
                        } else {
                            self.drop_packet(i);
                        }
                    },
                    None => {
                        let nx: i128 = p.x as i128 + p.velocity_x as i128;
                        let ny: i128 = p.y as i128 + p.velocity_y as i128;
                        if nx < -(MARGIN as i128) || nx > (WIDTH + MARGIN) as i128 || ny < -(MARGIN as i128)
                            || ny > (HEIGHT + MARGIN) as i128 {
                            self.drop_packet(i);
                        } else {
                            let mut m = p;
                            m.x = nx as i64;
                            m.y = ny as i64;
                            self.set_packet_keeping_count(i, m);
                        }
                    },
                }
            }
            proof {
                assert forall|j: int|
                    0 <= j < i + 1 && arrives(#[trigger] old(self).packets@[j], old(self).nodes@)
                        implies arrived@.contains(j as usize) by {
                    if j == i {
                        assert(arrived@[arrived@.len() - 1] == i);
                    } else {
                        let k = choose|k: int| 0 <= k < arrived_before.len() && arrived_before[k] == j as usize;
                        assert(arrived@[k] == j as usize);
                    }
                }
            }
            i = i + 1;
        }
        assert(old(self).packets@.subrange(0, i as int) =~= old(self).packets@);
        arrived
    }

    /// The motion phase: every packet in transit moves, then the packets
    /// that arrived are handled in pool order.
    fn update_packets(&mut self)
        requires
            old(self).fields_wf(),
        ensures
            final(self).fields_wf(),
            arrivals_rel(moved(old(self)@), final(self)@, arrivals_of(old(self)@.packets, old(self)@.nodes)),
            same_topology(final(self).nodes@, old(self).nodes@),
            final(self).spawn_queue@ == old(self).spawn_queue@,
            final(self).current_time == old(self).current_time,
            final(self).max_packets == old(self).max_packets,
            final(self).stats.packets_spawned == old(self).stats.packets_spawned,
            final(self).stats.packets_processed >= old(self).stats.packets_processed,
            final(self).stats.packets_dropped >= old(self).stats.packets_dropped,
    {
        let arrived = self.move_packets();
        let ghost s3 = self@;
        proof {
            assert(self@.packets =~= old(self)@.packets.map_values(|p: Packet| after_motion(p, old(self)@.nodes)));
            assert(s3 == moved(old(self)@));
            assert(arrived@.subrange(0, 0) =~= Seq::<usize>::empty());
        }
        let ghost mut trace: Seq<EngineView> = seq![s3];
        let mut k: usize = 0;
        while k < arrived.len()
            invariant
                self.fields_wf(),
                k <= arrived@.len(),
                arrivals_trace(s3, self@, arrived@.subrange(0, k as int), trace),
                same_topology(self.nodes@, old(self).nodes@),
                self.spawn_queue@ == old(self).spawn_queue@,
                self.current_time == old(self).current_time,
                self.max_packets == old(self).max_packets,
                self.stats.packets_spawned == old(self).stats.packets_spawned,
                self.stats.packets_processed >= old(self).stats.packets_processed,
                self.stats.packets_dropped >= old(self).stats.packets_dropped,
            decreases arrived@.len() - k,
        {
            let a = arrived[k];
            let ghost mid = self@;
            if a < self.packets.len() && self.packets[a].active {
                self.handle_packet_arrival(a);
            }
            proof {
                assert(arrival_step(mid, self@, a));
                let old_trace = trace;
                trace = trace.push(self@);
                let sub = arrived@.subrange(0, k as int + 1);
                assert forall|j: int| 0 <= j < sub.len() implies arrival_step(#[trigger] trace[j], trace[j + 1], sub[j]) by {
                    if j < k {
                        assert(trace[j] == old_trace[j] && trace[j + 1] == old_trace[j + 1]);
                        assert(sub[j] == arrived@.subrange(0, k as int)[j]);
                    }
                }
            }
            k = k + 1;
        }
        proof {
            assert(arrived@.subrange(0, k as int) =~= arrived@);
            assert(arrivals_trace(s3, self@, arrived@, trace));
        }
    }

    /// Fills up to `n` free slots, first fit, with packets made by `make`,
    /// counting each as emitted; returns how many it filled.
    fn fill_free_slots(
        &mut self,
        n: usize,
        make: &SlotFiller,
        draws: &Vec<u16>,
        first_draw: usize,
    ) -> (filled_count: usize)
        requires
            old(self).fields_wf(),
            old(self).stats.packets_spawned + free_before(old(self).packets@, old(self).packets@.len() as int)
                <= u64::MAX,
            first_draw <= active_count_of(old(self).packets@),
        ensures
            final(self).fields_wf(),
            filled_count <= n,
            filled_count == n || active_count_of(final(self).packets@) == final(self).packets@.len(),
            active_count_of(final(self).packets@) == active_count_of(old(self).packets@) + filled_count,
            final(self).packets@ == filled(
                old(self).packets@,
                filled_count as int,
                |k: int| make.packet(draws@, first_draw as int + k),
            ),
            final(self).stats.packets_spawned == old(self).stats.packets_spawned + filled_count,
            final(self).stats.packets_processed == old(self).stats.packets_processed,
            final(self).stats.packets_dropped == old(self).stats.packets_dropped,
            final(self).nodes@ == old(self).nodes@,
            final(self).spawn_queue@ == old(self).spawn_queue@,
            final(self).current_time == old(self).current_time,
            final(self).max_packets == old(self).max_packets,
    {
        let ghost s0 = old(self).packets@;
        let ghost mk = |k: int| make.packet(draws@, first_draw as int + k);
        let mut count: usize = 0;
        let mut i: usize = 0;
        while i < self.packets.len()
            invariant
                self.fields_wf(),
                i <= self.packets@.len(),
                self.packets@.len() == s0.len(),
                count <= n,
                count as int == if free_before(s0, i as int) < n { free_before(s0, i as int) } else { n as int },
                active_count_of(self.packets@) == active_count_of(s0) + count,
                first_draw <= active_count_of(s0),
                forall|j: int| 0 <= j < i ==> self.packets@[j] == (if !s0[j].active && free_before(s0, j) < n {
                    make.packet(draws@, first_draw + free_before(s0, j))
                } else {
                    s0[j]
                }),
                forall|j: int| i <= j < s0.len() ==> self.packets@[j] == s0[j],
                self.stats.packets_spawned == old(self).stats.packets_spawned + count,
                self.stats.packets_processed == old(self).stats.packets_processed,
                self.stats.packets_dropped == old(self).stats.packets_dropped,
                old(self).stats.packets_spawned + free_before(s0, s0.len() as int) <= u64::MAX,
                self.nodes@ == old(self).nodes@,
                self.spawn_queue@ == old(self).spawn_queue@,
                self.current_time == old(self).current_time,
                self.max_packets == old(self).max_packets,
            decreases s0.len() - i,
        {
            proof {
                lemma_active_count_prefix(s0, i as int);
                lemma_active_count_bounded(s0.subrange(0, i as int));
            }
            if !self.packets[i].active && count < n {
                proof {
                    lemma_active_count_bounded(self.packets@);
                    lemma_free_before_monotone(s0, i as int + 1, s0.len() as int);
                }
                let p = make.make(draws, first_draw + count);
                let ghost before = self.packets@;
                proof {
                    lemma_active_count_update(self.packets@, i as int, p);
                    lemma_active_count_bounded(self.packets@.update(i as int, p));
                }
                self.packets.set(i, p);
                self.stats.packets_spawned = self.stats.packets_spawned + 1;
                count = count + 1;
                proof {
                    assert(free_before(s0, i as int) == count - 1);
                    assert forall|j: int| 0 <= j < self.packets@.len() implies (#[trigger] self.packets@[j]).wf() by {
                        if j != i {
                            assert(self.packets@[j] == before[j]);
                        }
                    }
                }
            }
            i = i + 1;
        }
        proof {
            assert(s0.subrange(0, s0.len() as int) =~= s0);
            if count < n {
                assert forall|j: int| 0 <= j < self.packets@.len() implies #[trigger] self.packets@[j].active by {
                    assert(free_before(s0, j) < n) by {
                        lemma_free_before_monotone(s0, j, s0.len() as int);
                    }
                }
                lemma_active_count_full(self.packets@);
            }
            assert forall|j: int| 0 <= j < s0.len() implies self.packets@[j] == #[trigger] filled(s0, count as int, mk)[j] by {
                if !s0[j].active && free_before(s0, j) < n {
                    lemma_free_before_monotone(s0, j + 1, s0.len() as int);
                    lemma_active_count_prefix(s0, j);
                }
            }
            assert(self.packets@ =~= filled(s0, count as int, mk));
        }
        count
    }

    /// Emits, for every pending task, the packets its ramp calls for by now,
    /// as far as free slots allow, and retires the tasks that are done.
    #[verifier::rlimit(100)]
    #[verifier::spinoff_prover]
    fn process_spawn_queue(&mut self, draws: &Vec<u16>)
        requires
            old(self).fields_wf(),
            old(self).stats.packets_spawned + old(self).packets@.len() <= u64::MAX,
        ensures
            final(self).fields_wf(),
            final(self).nodes@ == old(self).nodes@,
            final(self).current_time == old(self).current_time,
            final(self).max_packets == old(self).max_packets,
            final(self).stats.packets_spawned >= old(self).stats.packets_spawned,
            final(self).stats.packets_processed == old(self).stats.packets_processed,
            final(self).stats.packets_dropped == old(self).stats.packets_dropped,
            final(self).spawn_queue@.len() <= old(self).spawn_queue@.len(),
            ({
                let sp = spawn_run(old(self).packets@, old(self).spawn_queue@, old(self).current_time, draws@);
                &&& final(self).packets@ == sp.packets
                &&& final(self).spawn_queue@ == sp.pending
                &&& final(self).stats.packets_spawned == old(self).stats.packets_spawned + sp.drawn
            }),
            old(self).packets@.len() - active_count_of(old(self).packets@) >= total_due(
                old(self).spawn_queue@,
                old(self).current_time,
            ) ==> {
                &&& final(self).spawn_queue@ == still_pending(ramped_all(old(self).spawn_queue@, old(self).current_time))
                &&& final(self).stats.packets_spawned == old(self).stats.packets_spawned + total_due(
                    old(self).spawn_queue@,
                    old(self).current_time,
                )
            },
    {
        proof {
            lemma_active_count_bounded(self.packets@);
        }
        let ghost a0 = active_count_of(self.packets@);
        let ghost ts = old(self).spawn_queue@;
        let ghost now = old(self).current_time;
        let ghost room = old(self).packets@.len() - active_count_of(old(self).packets@) >= total_due(ts, now);
        proof {
            assert(ts.subrange(0, 0) =~= Seq::<SpawnTask>::empty());
        }
        let mut remaining: Vec<SpawnTask> = Vec::new();
        let mut drawn: usize = 0;
        let mut ti: usize = 0;
        while ti < self.spawn_queue.len()
            invariant
                self.fields_wf(),
                ti <= self.spawn_queue@.len(),
                self.spawn_queue@ == old(self).spawn_queue@,
                remaining@.len() <= ti,
                forall|j: int|
                    0 <= j < remaining@.len() ==> (#[trigger] remaining@[j]).start_time <= self.current_time
                        && remaining@[j].spawned_count < remaining@[j].total_count,
                active_count_of(self.packets@) == a0 + drawn,
                self.stats.packets_spawned == old(self).stats.packets_spawned + drawn,
                a0 == active_count_of(old(self).packets@),
                old(self).stats.packets_spawned + self.packets@.len() <= u64::MAX,
                self.stats.packets_processed == old(self).stats.packets_processed,
                self.stats.packets_dropped == old(self).stats.packets_dropped,
                self.nodes@ == old(self).nodes@,
                self.current_time == old(self).current_time,
                self.max_packets == old(self).max_packets,
                self.packets@.len() == old(self).packets@.len(),
                ts == self.spawn_queue@,
                now == self.current_time,
                room == (old(self).packets@.len() - a0 >= total_due(ts, now)),
                room ==> drawn == total_due(ts.subrange(0, ti as int), now),
                room ==> remaining@ == still_pending(ramped_all(ts.subrange(0, ti as int), now)),
                spawn_run(old(self).packets@, ts.subrange(0, ti as int), now, draws@) == (SpawnOutcome {
                    packets: self.packets@,
                    pending: remaining@,
                    drawn: drawn as int,
                }),
            decreases self.spawn_queue@.len() - ti,
        {
            proof {
                lemma_total_due_prefix(ts, ti as int + 1, now);
                assert(ts.subrange(0, ti as int + 1).drop_last() =~= ts.subrange(0, ti as int));
            }
            let mut task = self.spawn_queue[ti];
            let ghost cur = self.packets@;
            let ghost d0 = drawn as int;
            proof {
                let pre = ts.subrange(0, ti as int + 1);
                assert(pre.drop_last() =~= ts.subrange(0, ti as int));
                assert(pre.last() == task);
                lemma_active_count_bounded(cur);
            }
            proof {
                assert(self.spawn_queue@[ti as int].start_time <= self.current_time);
                lemma_active_count_bounded(self.packets@);
                assert(self.packets@.subrange(0, self.packets@.len() as int) =~= self.packets@);
            }
            let elapsed: u64 = self.current_time - task.start_time;
            let target = ramp_target_of(task.total_count, elapsed, task.duration_ms);
            proof {
                if room {
                    assert(total_due(ts.subrange(0, ti as int + 1), now) == total_due(ts.subrange(0, ti as int), now)
                        + spawn_due(ts[ti as int], now));
                    assert(self.packets@.len() - active_count_of(self.packets@) >= spawn_due(ts[ti as int], now));
                }
            }
            if target > task.spawned_count {
                let filler = SlotFiller::Task(task);
                let ghost free_now = self.packets@.len() - active_count_of(self.packets@);
                let emitted = self.fill_free_slots(target - task.spawned_count, &filler, draws, drawn);
                proof {
                    lemma_active_count_bounded(self.packets@);
                    if room {
                        assert(emitted == target - task.spawned_count);
                    }
                    let free = cur.len() - active_count_of(cur);
                    let due = spawn_due(ts[ti as int], now);
                    assert(emitted == (if due < free { due } else { free }));
                    let f1 = |k: int| filler.packet(draws@, d0 + k);
                    let f2 = |k: int| spawned_packet(task, draw_at(draws@, d0 + k));
                    assert(filled(cur, emitted as int, f1) =~= filled(cur, emitted as int, f2));
                }
                task.spawned_count = task.spawned_count + emitted;
                drawn = drawn + emitted;
            }
            proof {
                let due = spawn_due(ts[ti as int], now);
                if due == 0 {
                    assert forall|k: int| 0 <= k < cur.len() implies free_before(cur, k) >= 0 by {
                        lemma_active_count_bounded(cur.subrange(0, k));
                    }
                    let f2 = |k: int| spawned_packet(ts[ti as int], draw_at(draws@, d0 + k));
                    assert(filled(cur, 0, f2) =~= cur);
                }
                if room {
                    assert(task == ramped(ts[ti as int], now));
                    let pre = ramped_all(ts.subrange(0, ti as int), now);
                    assert(ramped_all(ts.subrange(0, ti as int + 1), now) == pre.push(task));
                    assert(pre.push(task).drop_last() =~= pre);
                }
            }
            if task.spawned_count < task.total_count {
                remaining.push(task);
            }
            ti = ti + 1;
        }
        proof {
            assert(ts.subrange(0, ti as int) =~= ts);
        }
        self.spawn_queue = remaining;
    }

    /// Scatters up to `count` packets from `(x, y)` at once, in free flight
    /// with random velocities (two draws each), first fit, each counted as
    /// emitted.
    pub fn debug_spawn(&mut self, x: i32, y: i32, count: usize, draws: &Vec<u16>)
        requires
            old(self).wf(),
            old(self)@.stats.packets_spawned + old(self)@.max_packets <= u64::MAX,
        ensures
            final(self).wf(),
            ({
                let n = final(self)@.stats.packets_spawned - old(self)@.stats.packets_spawned;
                &&& 0 <= n <= count
                &&& n == count || final(self)@.active_count() == final(self)@.max_packets
                &&& final(self)@.packets == filled(
                    old(self)@.packets,
                    n,
                    |k: int| scattered_packet(x, y, draw_at(draws@, 2 * k), draw_at(draws@, 2 * k + 1)),
                )
            }),
            final(self)@.nodes == old(self)@.nodes,
            final(self)@.tasks == old(self)@.tasks,
            final(self)@.current_time == old(self)@.current_time,
            final(self)@.max_packets == old(self)@.max_packets,
            final(self)@.stats.packets_processed == old(self)@.stats.packets_processed,
            final(self)@.stats.packets_dropped == old(self)@.stats.packets_dropped,
    {
        proof {
            self.lemma_wf_fields();
            lemma_active_count_bounded(self.packets@);
            assert(self.packets@.subrange(0, self.packets@.len() as int) =~= self.packets@);
        }
        let filler = SlotFiller::Scatter { x, y };
        let n = self.fill_free_slots(count, &filler, draws, 0);
        proof {
            self.lemma_wf_from_fields();
            let mk1 = |k: int| filler.packet(draws@, 0 + k);
            let mk2 = |k: int| scattered_packet(x, y, draw_at(draws@, 2 * k), draw_at(draws@, 2 * k + 1));
            assert(filled(old(self)@.packets, n as int, mk1) =~= filled(old(self)@.packets, n as int, mk2));
        }
    }

    /// Advances the simulation by `delta_ms` milliseconds: emission, then
    /// service at the nodes, then motion and arrivals, then routing of the
    /// packets whose service ended. `draws` supplies the randomness, one
    /// draw per emitted packet, used in turn.
    pub fn tick(&mut self, delta_ms: u64, draws: &Vec<u16>)
        requires
            old(self).wf(),
            old(self)@.current_time + delta_ms <= u64::MAX,
            old(self)@.stats.packets_spawned + old(self)@.max_packets <= u64::MAX,
        ensures
            final(self).wf(),
            tick_rel(old(self)@, final(self)@, delta_ms, draws@),
            final(self)@.current_time == old(self)@.current_time + delta_ms,
            same_topology(final(self)@.nodes, old(self)@.nodes),
            final(self)@.max_packets == old(self)@.max_packets,
            forall|i: int|
                0 <= i < final(self)@.nodes.len() ==> (#[trigger] final(self)@.nodes[i]).processing_packets@.len()
                    <= final(self)@.nodes[i].spec.max_concurrent && final(self)@.nodes[i].queue@.len()
                    <= final(self)@.nodes[i].spec.queue_capacity,
            final(self)@.stats.packets_spawned == final(self)@.stats.packets_processed
                + final(self)@.stats.packets_dropped + final(self)@.active_count(),
            final(self)@.stats.packets_spawned >= old(self)@.stats.packets_spawned,
            final(self)@.stats.packets_processed >= old(self)@.stats.packets_processed,
            final(self)@.stats.packets_dropped >= old(self)@.stats.packets_dropped,
            final(self)@.tasks.len() <= old(self)@.tasks.len(),
            ({
                let now = (old(self)@.current_time + delta_ms) as u64;
                old(self)@.max_packets - old(self)@.active_count() >= total_due(old(self)@.tasks, now) ==> {
                    &&& final(self)@.tasks == still_pending(ramped_all(old(self)@.tasks, now))
                    &&& final(self)@.stats.packets_spawned == old(self)@.stats.packets_spawned + total_due(
                        old(self)@.tasks,
                        now,
                    )
                }
            }),
    {
        proof {
            self.lemma_wf_fields();
        }
        self.current_time = self.current_time + delta_ms;
        proof {
            assert forall|i: int| 0 <= i < self.spawn_queue@.len() implies (#[trigger] self.spawn_queue@[i]).start_time
                <= self.current_time && self.spawn_queue@[i].spawned_count <= self.spawn_queue@[i].total_count by {
                assert(old(self).spawn_queue@[i].start_time <= old(self).current_time);
            }
        }
        self.process_spawn_queue(draws);
        let ghost s1 = self@;
        proof {
            let sp = spawned(old(self)@, delta_ms, draws@);
            assert(s1.stats == sp.stats);
            assert(s1 == sp);
        }
        let finished = self.process_nodes(delta_ms);
        let ghost s2 = self@;
        self.update_packets();
        let ghost s4 = self@;
        self.route_finished_packets(&finished);
        proof {
            assert(serviced(s1, s2, delta_ms) && arrivals_rel(moved(s2), s4, arrivals_of(s2.packets, s2.nodes))
                && self@ == route_finished(s4, finished_pairs(s1.nodes, delta_ms)));
            assert(tick_rel(old(self)@, self@, delta_ms, draws@));
        }
        proof {
            self.lemma_wf_from_fields();
            assert forall|i: int| 0 <= i < self@.nodes.len() implies (#[trigger] self@.nodes[i]).processing_packets@.len()
                <= self@.nodes[i].spec.max_concurrent && self@.nodes[i].queue@.len() <= self@.nodes[i].spec.queue_capacity by {
                assert(self@.nodes[i].wf());
            }
        }
    }
}

} // verus!
