//! The mathematical model of the engine: its view and invariant, and what
//! each step of a tick does to a packet, a node or the pool.
use vstd::prelude::*;
use crate::geometry::{
    heading, heading_spec, step_toward_spec,
};
use crate::node::{
    Admission, LoadRate, Node, NodeKind, NodeSpec, ProcessingPacket, REQUEST_SIZE,
    RESPONSE_SIZE, admission_of, admitted, finished_service, saturating, still_in_service,
    with_drop, with_queued, with_service,
};
use crate::packet::{
    Packet, PacketState, SpawnTarget, SpawnTask, active_count_of, draw, draw_at, jittered_speed,
    lemma_active_count_empty, lemma_active_count_prefix, scatter_velocity, spawn_due,
};
use crate::routing::{
    Hop, best_worker, first_of_kind, hop_of,
};

verus! {

/// Width of the visualised area.
pub const WIDTH: i64 = 1920;

/// Height of the visualised area.
pub const HEIGHT: i64 = 1080;

/// How far outside the visualised area a free-flying packet may go.
pub const MARGIN: i64 = 50;

/// Counters over the packets emitted since the last reset.
#[derive(Clone, Copy, Debug, PartialEq, Eq, Structural)]
pub struct SimulationStats {
    /// Packets emitted.
    pub packets_spawned: u64,
    /// Packets whose round trip completed.
    pub packets_processed: u64,
    /// Packets dropped: by admission control, for want of a route, or on
    /// leaving the area in free flight.
    pub packets_dropped: u64,
}

/// What a `SimulationState` holds, as mathematical values.
pub struct EngineView {
    pub packets: Seq<Packet>,
    pub nodes: Seq<Node>,
    pub max_packets: nat,
    pub tasks: Seq<SpawnTask>,
    pub current_time: u64,
    pub stats: SimulationStats,
}

impl EngineView {
    /// The engine's invariant: a full pool of consistent packets, nodes
    /// within their capacities, tasks that started in the past and are not
    /// overdone, and every emitted packet either completed, dropped or live.
    pub open spec fn wf(&self) -> bool {
        &&& self.packets.len() == self.max_packets
        &&& forall|i: int| 0 <= i < self.packets.len() ==> (#[trigger] self.packets[i]).wf()
        &&& forall|i: int| 0 <= i < self.nodes.len() ==> (#[trigger] self.nodes[i]).wf()
        &&& forall|i: int|
            0 <= i < self.tasks.len() ==> (#[trigger] self.tasks[i]).start_time <= self.current_time
                && self.tasks[i].spawned_count <= self.tasks[i].total_count
        &&& self.stats.packets_spawned == self.stats.packets_processed + self.stats.packets_dropped
            + active_count_of(self.packets)
    }

    /// Number of live packets.
    pub open spec fn active_count(&self) -> nat {
        active_count_of(self.packets)
    }
}

/// Both node lists have the same nodes at the same places, runtime state
/// aside.
pub open spec fn same_topology(a: Seq<Node>, b: Seq<Node>) -> bool {
    &&& a.len() == b.len()
    &&& forall|i: int| 0 <= i < a.len() ==> (#[trigger] a[i]).same_topology(&b[i])
}

/// `n` is a node with the given identity and spec that has seen no traffic.
pub open spec fn is_fresh_node(n: Node, id: u32, x: i32, y: i32, kind: NodeKind, spec: NodeSpec) -> bool {
    &&& n.id == id
    &&& n.x == x
    &&& n.y == y
    &&& n.kind == kind
    &&& n.spec == spec
    &&& n.processing_packets@.len() == 0
    &&& n.queue@.len() == 0
    &&& n.total_processed == 0
    &&& n.total_dropped == 0
}

/// `m` is node `n` with its service slots and queue emptied.
pub open spec fn is_cleared_node(m: Node, n: Node) -> bool {
    &&& m.same_topology(&n)
    &&& m.processing_packets@.len() == 0
    &&& m.queue@.len() == 0
    &&& m.total_processed == n.total_processed
    &&& m.total_dropped == n.total_dropped
}

/// The index of the first node with the given id among the first `n`.
pub open spec fn first_with_id(nodes: Seq<Node>, id: u32, n: int) -> Option<int>
    decreases n,
{
    if n <= 0 {
        None
    } else {
        match first_with_id(nodes, id, n - 1) {
            Some(i) => Some(i),
            None => if nodes[n - 1].id == id {
                Some(n - 1)
            } else {
                None
            },
        }
    }
}

pub proof fn lemma_first_with_id_range(nodes: Seq<Node>, id: u32, n: int)
    ensures
        first_with_id(nodes, id, n) matches Some(i) ==> 0 <= i < n && nodes[i].id == id,
    decreases n,
{
    if n > 0 {
        lemma_first_with_id_range(nodes, id, n - 1);
    }
}

/// The coordinates of the live packets, as flat `x, y` pairs in pool order.
pub open spec fn active_coords_of(s: Seq<Packet>) -> Seq<i64>
    decreases s.len(),
{
    if s.len() == 0 {
        Seq::empty()
    } else if s.last().active {
        active_coords_of(s.drop_last()).push(s.last().x).push(s.last().y)
    } else {
        active_coords_of(s.drop_last())
    }
}

/// `x, y, is_response, size` of the live packets, flat, in pool order.
pub open spec fn active_details_of(s: Seq<Packet>) -> Seq<i64>
    decreases s.len(),
{
    if s.len() == 0 {
        Seq::empty()
    } else if s.last().active {
        let p = s.last();
        active_details_of(s.drop_last()).push(p.x).push(p.y).push(
            if p.is_response {
                1i64
            } else {
                0i64
            },
        ).push(p.size as i64)
    } else {
        active_details_of(s.drop_last())
    }
}

/// In service plus waiting, over service slots; zero for a node without
/// slots.
pub open spec fn load_rate_of(n: Node) -> LoadRate {
    if n.spec.max_concurrent == 0 {
        LoadRate { numerator: 0, denominator: 1 }
    } else {
        LoadRate {
            numerator: (n.processing_packets@.len() + n.queue@.len()) as u64,
            denominator: n.spec.max_concurrent as u64,
        }
    }
}

/// `p` with its slot freed.
pub open spec fn deactivated(p: Packet) -> Packet {
    Packet { active: false, ..p }
}

/// The packet holds a service or queue slot at a node.
pub open spec fn held(p: Packet) -> bool {
    p.active && p.state != PacketState::Moving
}

/// `p` after its node has gone: freed if it was held there.
pub open spec fn released(p: Packet) -> Packet {
    if held(p) {
        deactivated(p)
    } else {
        p
    }
}

/// Number of packets held at nodes.
pub open spec fn held_count(s: Seq<Packet>) -> nat
    decreases s.len(),
{
    if s.len() == 0 {
        0
    } else {
        held_count(s.drop_last()) + if held(s.last()) {
            1nat
        } else {
            0nat
        }
    }
}

/// `p` leaving node `at` in transit toward node `t`.
pub open spec fn retargeted(p: Packet, at: Node, t: int) -> Packet {
    Packet {
        target_node_idx: Some(t as usize),
        current_node_idx: None,
        state: PacketState::Moving,
        x: at.x as i64,
        y: at.y as i64,
        ..p
    }
}

/// The worker a response returns through: its anchor while that index is
/// valid, else the first worker.
pub open spec fn anchor_target(nodes: Seq<Node>, p: Packet) -> Option<int> {
    match p.origin_server_idx {
        Some(a) => if a < nodes.len() {
            Some(a as int)
        } else {
            first_of_kind(nodes, NodeKind::Worker, nodes.len() as int)
        },
        None => first_of_kind(nodes, NodeKind::Worker, nodes.len() as int),
    }
}

/// The node that packet `p` goes to on leaving node `at`; `None` when the
/// trip ends there or no node of the required kind exists.
pub open spec fn route_target(nodes: Seq<Node>, at: int, p: Packet) -> Option<int> {
    match hop_of(nodes[at].kind, p.is_response) {
        Hop::First(k) => first_of_kind(nodes, k, nodes.len() as int),
        Hop::LeastLoadedWorker => best_worker(nodes, nodes.len() as int),
        Hop::AnchorWorker => anchor_target(nodes, p),
        Hop::TurnAround => anchor_target(nodes, p),
        Hop::Complete => None,
    }
}

/// `p` as it leaves node `at`: at the store a request becomes its response.
pub open spec fn leaving(nodes: Seq<Node>, at: int, p: Packet) -> Packet {
    if hop_of(nodes[at].kind, p.is_response) == Hop::TurnAround {
        Packet { is_response: true, size: RESPONSE_SIZE, ..p }
    } else {
        p
    }
}

/// `p` after it has been routed on from node `at`.
pub open spec fn routed(nodes: Seq<Node>, at: int, p: Packet) -> Packet {
    match route_target(nodes, at, p) {
        Some(t) => retargeted(leaving(nodes, at, p), nodes[at], t),
        None => deactivated(leaving(nodes, at, p)),
    }
}

/// Routing `p` on from node `at` completes its round trip.
pub open spec fn completes(nodes: Seq<Node>, at: int, p: Packet) -> bool {
    hop_of(nodes[at].kind, p.is_response) == Hop::Complete
}

/// Routing `p` on from node `at` drops it for want of a next node.
pub open spec fn strands(nodes: Seq<Node>, at: int, p: Packet) -> bool {
    !completes(nodes, at, p) && route_target(nodes, at, p) is None
}

/// `p` standing at node `t`, which it has just reached.
pub open spec fn at_node(p: Packet, nodes: Seq<Node>, t: int) -> Packet {
    Packet { x: nodes[t].x as i64, y: nodes[t].y as i64, current_node_idx: Some(t as usize), ..p }
}

/// `p` at node `t`, anchored there if `t` is a worker it reaches outbound.
pub open spec fn anchored(p: Packet, nodes: Seq<Node>, t: int) -> Packet {
    let q = at_node(p, nodes, t);
    if nodes[t].kind == NodeKind::Worker && !p.is_response {
        Packet { origin_server_idx: Some(t as usize), ..q }
    } else {
        q
    }
}

/// The admission decision for a packet arriving at node `n`.
pub open spec fn admission_at(n: Node) -> Admission {
    admission_of(
        n.processing_packets@.len() as int,
        n.queue@.len() as int,
        n.spec.max_concurrent as int,
        n.spec.queue_capacity as int,
    )
}

/// The node that a packet in transit is heading for, if that index is valid.
pub open spec fn valid_target(nodes: Seq<Node>, p: Packet) -> Option<int> {
    match p.target_node_idx {
        Some(t) => if t < nodes.len() {
            Some(t as int)
        } else {
            None
        },
        None => None,
    }
}

/// A free-flying packet at `(x, y)` has left the area by more than the margin.
pub open spec fn out_of_bounds(x: int, y: int) -> bool {
    x < -MARGIN || x > WIDTH + MARGIN || y < -MARGIN || y > HEIGHT + MARGIN
}

/// The packet is live and in transit.
pub open spec fn in_transit(p: Packet) -> bool {
    p.active && p.state == PacketState::Moving
}

/// A packet in transit that is within the arrival radius of a valid target.
pub open spec fn arrives(p: Packet, nodes: Seq<Node>) -> bool {
    in_transit(p) && match valid_target(nodes, p) {
        Some(t) => step_toward_spec(p.x as int, p.y as int, nodes[t].x as int, nodes[t].y as int, p.speed as int) is None,
        None => false,
    }
}

/// `p` after one tick of motion: a packet chasing a node steps toward it
/// (or stays put once it has arrived), a free-flying packet moves by its
/// velocity and is lost once out of the area, and a packet whose target
/// index is stale is lost at once. Packets not in transit stay.
pub open spec fn after_motion(p: Packet, nodes: Seq<Node>) -> Packet {
    if !in_transit(p) {
        p
    } else {
        match p.target_node_idx {
            Some(t) => if t < nodes.len() {
                match step_toward_spec(p.x as int, p.y as int, nodes[t as int].x as int, nodes[t as int].y as int, p.speed as int) {
                    Some(q) => Packet { x: q.0 as i64, y: q.1 as i64, ..p },
                    None => p,
                }
            } else {
                deactivated(p)
            },
            None => {
                let nx = p.x + p.velocity_x;
                let ny = p.y + p.velocity_y;
                if out_of_bounds(nx, ny) {
                    deactivated(p)
                } else {
                    Packet { x: nx as i64, y: ny as i64, ..p }
                }
            },
        }
    }
}

/// The packet a task emits with the given draw: a request at the task's
/// origin, with a jittered speed, chasing the task's node or flying free
/// toward its point.
pub open spec fn spawned_packet(task: SpawnTask, r: u16) -> Packet {
    let speed = jittered_speed(task.base_speed as int, task.speed_variance as int, r as int);
    let (vx, vy, target) = match task.target {
        SpawnTarget::Node { index } => (0int, 0int, Some(index)),
        SpawnTarget::Point { x, y } => {
            let v = heading_spec(x - task.x, y - task.y, speed);
            (v.0, v.1, None)
        },
    };
    Packet {
        x: task.x as i64,
        y: task.y as i64,
        velocity_x: vx as i64,
        velocity_y: vy as i64,
        active: true,
        packet_type: task.packet_type,
        complexity: task.complexity,
        target_node_idx: target,
        speed: speed as u64,
        state: PacketState::Moving,
        current_node_idx: None,
        is_response: false,
        size: REQUEST_SIZE,
        origin_server_idx: None,
    }
}

/// Number of free slots before slot `i`.
pub open spec fn free_before(s: Seq<Packet>, i: int) -> int {
    i - active_count_of(s.subrange(0, i))
}

/// The pool after up to `n` packets made by `make` fill its free slots,
/// first fit: the free slot with `k` free slots before it gets packet `k`.
pub open spec fn filled(s: Seq<Packet>, n: int, make: spec_fn(int) -> Packet) -> Seq<Packet> {
    Seq::new(
        s.len(),
        |i: int|
            if !s[i].active && free_before(s, i) < n {
                make(free_before(s, i))
            } else {
                s[i]
            },
    )
}

/// A packet scattered from `(x, y)` for debugging, with two draws for its
/// velocity.
pub open spec fn scattered_packet(x: i32, y: i32, rx: u16, ry: u16) -> Packet {
    Packet {
        x: x as i64,
        y: y as i64,
        velocity_x: scatter_velocity(rx as int) as i64,
        velocity_y: scatter_velocity(ry as int) as i64,
        active: true,
        packet_type: 0,
        complexity: 10,
        target_node_idx: None,
        speed: 3,
        state: PacketState::Moving,
        current_node_idx: None,
        is_response: false,
        size: REQUEST_SIZE,
        origin_server_idx: None,
    }
}

/// Free slots before a later slot are at least those before an earlier one.
pub proof fn lemma_free_before_monotone(s: Seq<Packet>, a: int, b: int)
    requires
        0 <= a <= b <= s.len(),
    ensures
        free_before(s, a) <= free_before(s, b),
        free_before(s, b) <= free_before(s, a) + (b - a),
    decreases b - a,
{
    if a < b {
        lemma_free_before_monotone(s, a, b - 1);
        lemma_active_count_prefix(s, b - 1);
    }
}

/// Size of the packet in slot `idx`; a request's size for an index outside
/// the pool.
pub open spec fn size_at(packets: Seq<Packet>, idx: usize) -> u32 {
    if idx < packets.len() {
        packets[idx as int].size
    } else {
        REQUEST_SIZE
    }
}

/// How many queued packets of node `n` move up after `delta` milliseconds of
/// service: as many as there are free slots, at most the whole queue.
pub open spec fn promotion_count(n: Node, delta: u64) -> int {
    let free = n.spec.max_concurrent - still_in_service(n.processing_packets@, delta).len();
    if free <= 0 {
        0
    } else if free < n.queue@.len() {
        free
    } else {
        n.queue@.len() as int
    }
}

/// The service entries of the packets that move up from the queue of `n`,
/// oldest first, each with the service time of its size.
pub open spec fn promoted_entries(n: Node, packets: Seq<Packet>, delta: u64) -> Seq<ProcessingPacket> {
    Seq::new(
        promotion_count(n, delta) as nat,
        |q: int| admitted(n.spec, n.queue@[q].packet_idx, size_at(packets, n.queue@[q].packet_idx)),
    )
}

/// `m` is node `n` after `delta` milliseconds of service: finished entries
/// leave and are counted, the others count down, and queued packets move
/// into the free slots.
pub open spec fn serviced_node(n: Node, m: Node, packets: Seq<Packet>, delta: u64) -> bool {
    &&& m.same_topology(&n)
    &&& m.processing_packets@ == still_in_service(n.processing_packets@, delta) + promoted_entries(n, packets, delta)
    &&& m.queue@ == n.queue@.subrange(promotion_count(n, delta), n.queue@.len() as int)
    &&& m.total_processed == saturating(n.total_processed + finished_service(n.processing_packets@, delta).len())
    &&& m.total_dropped == n.total_dropped
}

/// Packet `j` is among the first `k` packets in the queue of `n`.
pub open spec fn queued_among(n: Node, k: int, j: int) -> bool {
    exists|q: int| 0 <= q < k && #[trigger] n.queue@[q].packet_idx == j
}

/// Packet `j` moves up from the queue of one of the first `upto` nodes.
pub open spec fn promoted_at(nodes: Seq<Node>, delta: u64, upto: int, j: int) -> bool {
    exists|i: int| 0 <= i < upto && #[trigger] queued_among(nodes[i], promotion_count(nodes[i], delta), j)
}

/// One more node adds its promotions.
pub proof fn lemma_promoted_at_step(nodes: Seq<Node>, delta: u64, i: int, j: int)
    requires
        0 <= i,
    ensures
        promoted_at(nodes, delta, i + 1, j) == (promoted_at(nodes, delta, i, j) || queued_among(
            nodes[i],
            promotion_count(nodes[i], delta),
            j,
        )),
{
    if promoted_at(nodes, delta, i + 1, j) {
        let w = choose|w: int| 0 <= w < i + 1 && #[trigger] queued_among(nodes[w], promotion_count(nodes[w], delta), j);
        if w < i {
            assert(0 <= w < i && queued_among(nodes[w], promotion_count(nodes[w], delta), j));
        }
    }
    if promoted_at(nodes, delta, i, j) {
        let w = choose|w: int| 0 <= w < i && #[trigger] queued_among(nodes[w], promotion_count(nodes[w], delta), j);
        assert(0 <= w < i + 1 && queued_among(nodes[w], promotion_count(nodes[w], delta), j));
    }
    if queued_among(nodes[i], promotion_count(nodes[i], delta), j) {
        assert(0 <= i < i + 1 && queued_among(nodes[i], promotion_count(nodes[i], delta), j));
    }
}

/// One more queued packet adds itself.
pub proof fn lemma_queued_among_step(n: Node, k: int, j: int)
    requires
        0 <= k < n.queue@.len(),
    ensures
        queued_among(n, k + 1, j) == (queued_among(n, k, j) || n.queue@[k].packet_idx == j),
{
    if queued_among(n, k + 1, j) {
        let q = choose|q: int| 0 <= q < k + 1 && #[trigger] n.queue@[q].packet_idx == j;
        if q < k {
            assert(0 <= q < k && n.queue@[q].packet_idx == j);
        }
    }
    if queued_among(n, k, j) {
        let q = choose|q: int| 0 <= q < k && #[trigger] n.queue@[q].packet_idx == j;
        assert(0 <= q < k + 1 && n.queue@[q].packet_idx == j);
    }
    if n.queue@[k].packet_idx == j {
        assert(0 <= k < k + 1 && n.queue@[k].packet_idx == j);
    }
}

/// `p` holding a service slot.
pub open spec fn in_service(p: Packet) -> Packet {
    Packet { state: PacketState::Processing, ..p }
}

/// `p` after the service phase: in service if it moved up from a queue.
pub open spec fn after_service(p: Packet, nodes: Seq<Node>, delta: u64, j: int) -> Packet {
    if promoted_at(nodes, delta, nodes.len() as int, j) && p.active {
        in_service(p)
    } else {
        p
    }
}

/// `b` is `a` after the service phase of a tick of `delta` milliseconds.
pub open spec fn serviced(a: EngineView, b: EngineView, delta: u64) -> bool {
    &&& b.tasks == a.tasks
    &&& b.current_time == a.current_time
    &&& b.max_packets == a.max_packets
    &&& b.stats == a.stats
    &&& b.nodes.len() == a.nodes.len()
    &&& forall|i: int| 0 <= i < a.nodes.len() ==> serviced_node(a.nodes[i], #[trigger] b.nodes[i], a.packets, delta)
    &&& b.packets.len() == a.packets.len()
    &&& forall|j: int| 0 <= j < a.packets.len() ==> #[trigger] b.packets[j] == after_service(a.packets[j], a.nodes, delta, j)
}

/// `(node, packet)` for every service that ends within `delta` milliseconds,
/// node by node, each node's in service order.
pub open spec fn finished_pairs(nodes: Seq<Node>, delta: u64) -> Seq<(usize, usize)>
    decreases nodes.len(),
{
    if nodes.len() == 0 {
        Seq::empty()
    } else {
        finished_pairs(nodes.drop_last(), delta) + finished_service(nodes.last().processing_packets@, delta).map_values(
            |j: usize| ((nodes.len() - 1) as usize, j),
        )
    }
}

/// The packet is lost during motion.
pub open spec fn lost_in_motion(p: Packet, nodes: Seq<Node>) -> bool {
    in_transit(p) && !after_motion(p, nodes).active
}

/// Number of packets lost during motion.
pub open spec fn lost_count(s: Seq<Packet>, nodes: Seq<Node>) -> nat
    decreases s.len(),
{
    if s.len() == 0 {
        0
    } else {
        lost_count(s.drop_last(), nodes) + if lost_in_motion(s.last(), nodes) {
            1nat
        } else {
            0nat
        }
    }
}

/// Indices of the packets that arrive this tick, in pool order.
pub open spec fn arrivals_of(s: Seq<Packet>, nodes: Seq<Node>) -> Seq<usize>
    decreases s.len(),
{
    if s.len() == 0 {
        Seq::empty()
    } else if arrives(s.last(), nodes) {
        arrivals_of(s.drop_last(), nodes).push((s.len() - 1) as usize)
    } else {
        arrivals_of(s.drop_last(), nodes)
    }
}

/// `a` after every packet has moved, lost packets counted as dropped.
pub open spec fn moved(a: EngineView) -> EngineView {
    EngineView {
        packets: a.packets.map_values(|p: Packet| after_motion(p, a.nodes)),
        stats: SimulationStats {
            packets_dropped: (a.stats.packets_dropped + lost_count(a.packets, a.nodes)) as u64,
            ..a.stats
        },
        ..a
    }
}

/// `b` is `a` after packet `idx`, live and in transit, has arrived at its
/// target: dropped for a stale target; routed on at once at a pass-through
/// node; otherwise anchored at a worker on its way out, then served,
/// queued or dropped as admission control decides.
pub open spec fn handled(a: EngineView, b: EngineView, idx: usize) -> bool {
    let p = a.packets[idx as int];
    let nodes = a.nodes;
    &&& b.tasks == a.tasks
    &&& b.current_time == a.current_time
    &&& b.max_packets == a.max_packets
    &&& b.stats.packets_spawned == a.stats.packets_spawned
    &&& match valid_target(nodes, p) {
        None => {
            &&& b.packets == a.packets.update(idx as int, deactivated(p))
            &&& b.nodes == nodes
            &&& b.stats.packets_processed == a.stats.packets_processed
            &&& b.stats.packets_dropped == a.stats.packets_dropped + 1
        },
        Some(t) => if nodes[t].spec.service_time_ms == 0 {
            &&& b.packets == a.packets.update(idx as int, routed(nodes, t, at_node(p, nodes, t)))
            &&& b.nodes == nodes
            &&& b.stats.packets_processed == a.stats.packets_processed + if completes(nodes, t, p) { 1int } else { 0int }
            &&& b.stats.packets_dropped == a.stats.packets_dropped + if strands(nodes, t, p) { 1int } else { 0int }
        } else {
            let q = anchored(p, nodes, t);
            &&& b.nodes.len() == nodes.len()
            &&& forall|j: int| 0 <= j < nodes.len() && j != t ==> b.nodes[j] == nodes[j]
            &&& b.stats.packets_processed == a.stats.packets_processed
            &&& match admission_at(nodes[t]) {
                Admission::Serve => {
                    &&& b.packets == a.packets.update(idx as int, Packet { state: PacketState::Processing, ..q })
                    &&& with_service(nodes[t], b.nodes[t], admitted(nodes[t].spec, idx, p.size))
                    &&& b.stats.packets_dropped == a.stats.packets_dropped
                },
                Admission::Enqueue => {
                    &&& b.packets == a.packets.update(idx as int, Packet { state: PacketState::Queued, ..q })
                    &&& with_queued(nodes[t], b.nodes[t], idx)
                    &&& b.stats.packets_dropped == a.stats.packets_dropped
                },
                Admission::Reject => {
                    &&& b.packets == a.packets.update(idx as int, deactivated(q))
                    &&& with_drop(nodes[t], b.nodes[t])
                    &&& b.stats.packets_dropped == a.stats.packets_dropped + 1
                },
            }
        },
    }
}

/// One arrival in turn: a packet still live is handled, else nothing changes.
pub open spec fn arrival_step(a: EngineView, b: EngineView, idx: usize) -> bool {
    if idx < a.packets.len() && a.packets[idx as int].active {
        handled(a, b, idx)
    } else {
        b == a
    }
}

/// `states` leads from `a` to `b` through the arrivals `idxs`, one in turn.
pub open spec fn arrivals_trace(a: EngineView, b: EngineView, idxs: Seq<usize>, states: Seq<EngineView>) -> bool {
    &&& states.len() == idxs.len() + 1
    &&& states[0] == a
    &&& states[idxs.len() as int] == b
    &&& forall|k: int| 0 <= k < idxs.len() ==> arrival_step(#[trigger] states[k], states[k + 1], idxs[k])
}

/// `b` is `a` after the arrivals `idxs`, handled in order.
pub open spec fn arrivals_rel(a: EngineView, b: EngineView, idxs: Seq<usize>) -> bool {
    exists|states: Seq<EngineView>| #[trigger] arrivals_trace(a, b, idxs, states)
}

/// `a` after the live packet `pi` that finished service at node `ni` has
/// been routed on.
pub open spec fn route_one(a: EngineView, ni: usize, pi: usize) -> EngineView {
    let p = a.packets[pi as int];
    EngineView {
        packets: a.packets.update(pi as int, routed(a.nodes, ni as int, p)),
        stats: SimulationStats {
            packets_processed: (a.stats.packets_processed + if completes(a.nodes, ni as int, p) { 1int } else { 0int }) as u64,
            packets_dropped: (a.stats.packets_dropped + if strands(a.nodes, ni as int, p) { 1int } else { 0int }) as u64,
            ..a.stats
        },
        ..a
    }
}

/// `a` after the packets that finished service are routed on in order; those
/// no longer live are passed over.
pub open spec fn route_finished(a: EngineView, pairs: Seq<(usize, usize)>) -> EngineView
    decreases pairs.len(),
{
    if pairs.len() == 0 {
        a
    } else {
        let m = route_finished(a, pairs.drop_last());
        let ni = pairs.last().0;
        let pi = pairs.last().1;
        if pi < m.packets.len() && m.packets[pi as int].active && ni < m.nodes.len() {
            route_one(m, ni, pi)
        } else {
            m
        }
    }
}

/// What the spawn phase leaves: the pool, the tasks still pending and the
/// number of packets emitted.
pub struct SpawnOutcome {
    pub packets: Seq<Packet>,
    pub pending: Seq<SpawnTask>,
    pub drawn: int,
}

/// The spawn phase at time `now` over tasks `ts`, in order: each task emits
/// what its ramp owes, as far as free slots remain, first fit, using the
/// draws in turn; tasks that have emitted all their packets retire.
pub open spec fn spawn_run(p0: Seq<Packet>, ts: Seq<SpawnTask>, now: u64, draws: Seq<u16>) -> SpawnOutcome
    decreases ts.len(),
{
    if ts.len() == 0 {
        SpawnOutcome { packets: p0, pending: Seq::empty(), drawn: 0 }
    } else {
        let prev = spawn_run(p0, ts.drop_last(), now, draws);
        let t = ts.last();
        let free = prev.packets.len() - active_count_of(prev.packets);
        let due = spawn_due(t, now);
        let e = if due < free { due } else { free };
        let d = prev.drawn;
        let t2 = SpawnTask { spawned_count: (t.spawned_count + e) as usize, ..t };
        SpawnOutcome {
            packets: filled(prev.packets, e, |k: int| spawned_packet(t, draw_at(draws, d + k))),
            pending: if t2.spawned_count < t2.total_count {
                prev.pending.push(t2)
            } else {
                prev.pending
            },
            drawn: d + e,
        }
    }
}

/// `a` after the clock has advanced by `delta` and the spawn phase has run.
pub open spec fn spawned(a: EngineView, delta: u64, draws: Seq<u16>) -> EngineView {
    let now = (a.current_time + delta) as u64;
    let sp = spawn_run(a.packets, a.tasks, now, draws);
    EngineView {
        packets: sp.packets,
        tasks: sp.pending,
        current_time: now,
        stats: SimulationStats { packets_spawned: (a.stats.packets_spawned + sp.drawn) as u64, ..a.stats },
        ..a
    }
}

/// `b` is `a` after one tick of `delta` milliseconds with the given draws:
/// the spawn phase; the service phase; motion; the arrivals, in pool order;
/// then the packets that finished service, routed on in order.
pub open spec fn tick_rel(a: EngineView, b: EngineView, delta: u64, draws: Seq<u16>) -> bool {
    let s1 = spawned(a, delta, draws);
    exists|s2: EngineView, s4: EngineView|
        serviced(s1, s2, delta) && #[trigger] arrivals_rel(moved(s2), s4, arrivals_of(s2.packets, s2.nodes))
            && b == route_finished(s4, finished_pairs(s1.nodes, delta))
}

/// A response retraces the worker of its request: a request admitted at a
/// worker records it as its anchor, motion and routing never change the
/// anchor, a later arrival records none once the packet is a response, and
/// at the store the request turns into a response bound for its anchored
/// worker while that index is valid.
pub proof fn lemma_response_retraces_worker(nodes: Seq<Node>, p: Packet, w: int, s: int, t: int)
    requires
        0 <= w < nodes.len(),
        0 <= s < nodes.len(),
        0 <= t < nodes.len(),
        nodes[w].kind == NodeKind::Worker,
        nodes[s].kind == NodeKind::Store,
    ensures
        !p.is_response ==> anchored(p, nodes, w).origin_server_idx == Some(w as usize),
        p.is_response ==> anchored(p, nodes, t).origin_server_idx == p.origin_server_idx,
        after_motion(p, nodes).origin_server_idx == p.origin_server_idx,
        routed(nodes, t, p).origin_server_idx == p.origin_server_idx,
        !p.is_response && p.origin_server_idx == Some(w as usize) ==> {
            let r = routed(nodes, s, p);
            &&& r.active == p.active
            &&& r.is_response
            &&& r.size == RESPONSE_SIZE
            &&& r.target_node_idx == Some(w as usize)
            &&& r.state == PacketState::Moving
        },
{
}

/// Drop under overload: at a worker with one service slot, no queue and a
/// non-zero service time, two packets that arrive in turn while it is idle
/// give a served first packet and a dropped second one, counted once at the
/// node and once overall; nothing completes.
pub proof fn lemma_overload_drops_second(a: EngineView, m: EngineView, b: EngineView, i1: usize, i2: usize, w: usize)
    requires
        w < a.nodes.len(),
        a.nodes[w as int].kind == NodeKind::Worker,
        a.nodes[w as int].spec.max_concurrent == 1,
        a.nodes[w as int].spec.queue_capacity == 0,
        a.nodes[w as int].spec.service_time_ms > 0,
        a.nodes[w as int].processing_packets@.len() == 0,
        a.nodes[w as int].queue@.len() == 0,
        i1 < a.packets.len(),
        i2 < a.packets.len(),
        i1 != i2,
        a.packets[i1 as int].active,
        a.packets[i2 as int].active,
        a.packets[i1 as int].target_node_idx == Some(w),
        a.packets[i2 as int].target_node_idx == Some(w),
        arrival_step(a, m, i1),
        arrival_step(m, b, i2),
    ensures
        b.nodes[w as int].processing_packets@.len() == 1,
        b.nodes[w as int].processing_packets@[0].packet_idx == i1,
        b.nodes[w as int].queue@.len() == 0,
        b.packets[i1 as int].active,
        b.packets[i1 as int].state == PacketState::Processing,
        !b.packets[i2 as int].active,
        b.stats.packets_dropped == a.stats.packets_dropped + 1,
        b.stats.packets_processed == a.stats.packets_processed,
        b.nodes[w as int].total_dropped == saturating(a.nodes[w as int].total_dropped + 1),
{
    let n = a.nodes[w as int];
    assert(valid_target(a.nodes, a.packets[i1 as int]) == Some(w as int));
    assert(admission_at(n) == Admission::Serve);
    assert(m.packets[i2 as int] == a.packets[i2 as int]);
    assert(m.nodes.len() == a.nodes.len());
    assert(valid_target(m.nodes, m.packets[i2 as int]) == Some(w as int));
    let n1 = m.nodes[w as int];
    assert(n1.processing_packets@.len() == 1);
    assert(admission_at(n1) == Admission::Reject);
    assert(b.packets[i1 as int] == m.packets[i1 as int]);
}

/// `b` is what a reset makes of `a`: every slot freed, every service slot
/// and queue emptied, no tasks, clock and counters at zero; nodes, specs,
/// lifetime counters and pool size kept.
pub open spec fn is_reset_of(b: EngineView, a: EngineView) -> bool {
    &&& b.packets == a.packets.map_values(|p: Packet| deactivated(p))
    &&& b.nodes.len() == a.nodes.len()
    &&& forall|i: int| 0 <= i < a.nodes.len() ==> is_cleared_node(#[trigger] b.nodes[i], a.nodes[i])
    &&& b.tasks.len() == 0
    &&& b.current_time == 0
    &&& b.stats == (SimulationStats { packets_spawned: 0, packets_processed: 0, packets_dropped: 0 })
    &&& b.max_packets == a.max_packets
}

/// Resetting twice in a row is the same as resetting once: the second reset
/// finds nothing live, no task, a zero clock and zero counters, and leaves
/// the pool, the nodes and their lifetime counters as the first one left
/// them.
pub proof fn lemma_reset_idempotent(a: EngineView, b: EngineView, c: EngineView)
    requires
        is_reset_of(b, a),
        is_reset_of(c, b),
    ensures
        is_reset_of(c, a),
        c.packets == b.packets,
        active_count_of(b.packets) == 0,
        active_count_of(c.packets) == 0,
        c.tasks == b.tasks,
        c.current_time == b.current_time,
        c.stats == b.stats,
        c.max_packets == b.max_packets,
        same_topology(c.nodes, b.nodes),
        same_topology(c.nodes, a.nodes),
        forall|i: int| 0 <= i < c.nodes.len() ==> is_cleared_node(#[trigger] c.nodes[i], b.nodes[i]),
{
    assert(c.packets =~= b.packets);
    assert(c.tasks =~= b.tasks);
    lemma_active_count_empty(b.packets);
    lemma_active_count_empty(c.packets);
    assert forall|i: int| 0 <= i < a.nodes.len() implies is_cleared_node(#[trigger] c.nodes[i], a.nodes[i]) by {
        assert(is_cleared_node(b.nodes[i], a.nodes[i]));
        assert(is_cleared_node(c.nodes[i], b.nodes[i]));
    }
    assert forall|i: int| 0 <= i < c.nodes.len() implies (#[trigger] c.nodes[i]).same_topology(&a.nodes[i]) by {
        assert(is_cleared_node(b.nodes[i], a.nodes[i]));
        assert(is_cleared_node(c.nodes[i], b.nodes[i]));
    }
    assert forall|i: int| 0 <= i < c.nodes.len() implies (#[trigger] c.nodes[i]).same_topology(&b.nodes[i]) by {
        assert(is_cleared_node(c.nodes[i], b.nodes[i]));
    }
}

pub proof fn lemma_first_with_id_stable(nodes: Seq<Node>, id: u32, n: int, m: int)
    requires
        0 < n <= m,
        first_with_id(nodes, id, n) is Some,
    ensures
        first_with_id(nodes, id, m) == first_with_id(nodes, id, n),
    decreases m - n,
{
    if m > n {
        lemma_first_with_id_stable(nodes, id, n, m - 1);
    }
}

} // verus!
