//! Packets, the pool's count of live packets, and spawn tasks.
use vstd::prelude::*;
use crate::geometry::{COORD_BOUND, MAX_SPEED};
use crate::node::{REQUEST_SIZE, RESPONSE_SIZE};

verus! {

/// A coarse tag of the traffic a packet stands for (advisory).
#[derive(Clone, Copy, Debug, PartialEq, Eq, Structural)]
pub enum PacketType {
    Normal,
    SynFlood,
    HeavyTask,
    Killer,
}

impl PacketType {
    /// The numeric tag that packets carry.
    pub fn code(self) -> (r: u32)
        ensures
            r == packet_type_code(self),
    {
        match self {
            PacketType::Normal => 0,
            PacketType::SynFlood => 1,
            PacketType::HeavyTask => 2,
            PacketType::Killer => 3,
        }
    }
}

pub open spec fn packet_type_code(t: PacketType) -> u32 {
    match t {
        PacketType::Normal => 0,
        PacketType::SynFlood => 1,
        PacketType::HeavyTask => 2,
        PacketType::Killer => 3,
    }
}

/// Where a live packet is in its life.
#[derive(Clone, Copy, Debug, PartialEq, Eq, Structural)]
pub enum PacketState {
    /// In transit toward its target, or flying free.
    Moving,
    /// Holding a service slot at a node.
    Processing,
    /// Holding a queue slot at a node.
    Queued,
}

/// One slot of the packet pool.
#[derive(Clone, Copy, Debug, PartialEq, Eq, Structural)]
pub struct Packet {
    pub x: i64,
    pub y: i64,
    /// Per-tick displacement, used only in free flight.
    pub velocity_x: i64,
    pub velocity_y: i64,
    /// Whether the slot holds a live packet.
    pub active: bool,
    pub packet_type: u32,
    pub complexity: u8,
    /// The node the packet is heading for; `None` in free flight.
    pub target_node_idx: Option<usize>,
    /// Distance covered per tick.
    pub speed: u64,
    pub state: PacketState,
    /// The node holding the packet; `None` while in transit.
    pub current_node_idx: Option<usize>,
    /// Whether the packet is on its return trip.
    pub is_response: bool,
    /// `REQUEST_SIZE` outbound, `RESPONSE_SIZE` on the return trip.
    pub size: u32,
    /// The worker visited on the outbound trip, which the response retraces.
    pub origin_server_idx: Option<usize>,
}

/// The size a packet has on the given leg of its trip.
pub open spec fn size_for(is_response: bool) -> u32 {
    if is_response {
        RESPONSE_SIZE
    } else {
        REQUEST_SIZE
    }
}

/// A free slot, as the pool starts out.
pub open spec fn idle_packet() -> Packet {
    Packet {
        x: 0,
        y: 0,
        velocity_x: 0,
        velocity_y: 0,
        active: false,
        packet_type: 0,
        complexity: 0,
        target_node_idx: None,
        speed: 3,
        state: PacketState::Moving,
        current_node_idx: None,
        is_response: false,
        size: REQUEST_SIZE,
        origin_server_idx: None,
    }
}

impl Packet {
    /// The size field agrees with the leg of the trip, and speed and
    /// coordinates are within the bounds that motion keeps.
    pub open spec fn wf(&self) -> bool {
        &&& self.size == size_for(self.is_response)
        &&& self.speed <= MAX_SPEED
        &&& -COORD_BOUND <= self.x <= COORD_BOUND
        &&& -COORD_BOUND <= self.y <= COORD_BOUND
    }
}

impl Default for Packet {
    fn default() -> (r: Packet)
        ensures
            r == idle_packet(),
    {
        Packet {
            x: 0,
            y: 0,
            velocity_x: 0,
            velocity_y: 0,
            active: false,
            packet_type: 0,
            complexity: 0,
            target_node_idx: None,
            speed: 3,
            state: PacketState::Moving,
            current_node_idx: None,
            is_response: false,
            size: REQUEST_SIZE,
            origin_server_idx: None,
        }
    }
}

/// The number of live packets in a pool.
pub open spec fn active_count_of(s: Seq<Packet>) -> nat
    decreases s.len(),
{
    if s.len() == 0 {
        0
    } else {
        active_count_of(s.drop_last()) + if s.last().active {
            1nat
        } else {
            0nat
        }
    }
}

/// Replacing one slot changes the count by what the two slots hold.
pub proof fn lemma_active_count_update(s: Seq<Packet>, i: int, p: Packet)
    requires
        0 <= i < s.len(),
    ensures
        active_count_of(s.update(i, p)) + (if s[i].active { 1int } else { 0int })
            == active_count_of(s) + (if p.active { 1int } else { 0int }),
    decreases s.len(),
{
    let t = s.update(i, p);
    if i == s.len() - 1 {
        assert(t.drop_last() =~= s.drop_last());
    } else {
        lemma_active_count_update(s.drop_last(), i, p);
        assert(t.drop_last() =~= s.drop_last().update(i, p));
    }
}

/// A pool never holds more live packets than slots.
pub proof fn lemma_active_count_bounded(s: Seq<Packet>)
    ensures
        active_count_of(s) <= s.len(),
    decreases s.len(),
{
    if s.len() > 0 {
        lemma_active_count_bounded(s.drop_last());
    }
}

/// A pool whose slots are all live counts every slot.
pub proof fn lemma_active_count_full(s: Seq<Packet>)
    requires
        forall|j: int| 0 <= j < s.len() ==> #[trigger] s[j].active,
    ensures
        active_count_of(s) == s.len(),
    decreases s.len(),
{
    if s.len() > 0 {
        lemma_active_count_full(s.drop_last());
    }
}

/// A pool whose slots are all free counts none.
pub proof fn lemma_active_count_empty(s: Seq<Packet>)
    requires
        forall|j: int| 0 <= j < s.len() ==> !(#[trigger] s[j].active),
    ensures
        active_count_of(s) == 0,
    decreases s.len(),
{
    if s.len() > 0 {
        lemma_active_count_empty(s.drop_last());
    }
}

/// The count over a prefix grows by the next slot.
pub proof fn lemma_active_count_prefix(s: Seq<Packet>, i: int)
    requires
        0 <= i < s.len(),
    ensures
        active_count_of(s.subrange(0, i + 1)) == active_count_of(s.subrange(0, i)) + if s[i].active {
            1nat
        } else {
            0nat
        },
{
    assert(s.subrange(0, i + 1).drop_last() =~= s.subrange(0, i));
}

/// Where the packets of a spawn task go.
#[derive(Clone, Copy, Debug, PartialEq, Eq, Structural)]
pub enum SpawnTarget {
    /// Free flight toward a fixed point.
    Point { x: i32, y: i32 },
    /// Toward a node, chased each tick.
    Node { index: usize },
}

/// A pending request to emit packets over a ramp.
#[derive(Clone, Copy, Debug, PartialEq, Eq, Structural)]
pub struct SpawnTask {
    pub x: i32,
    pub y: i32,
    pub target: SpawnTarget,
    /// Packets requested in all.
    pub total_count: usize,
    /// Packets emitted so far.
    pub spawned_count: usize,
    /// Milliseconds over which emission ramps up linearly.
    pub duration_ms: u64,
    pub base_speed: u32,
    pub speed_variance: u32,
    pub packet_type: u32,
    pub complexity: u8,
    /// The simulated time at which the task was registered.
    pub start_time: u64,
}

/// How many of a task's packets should have been emitted after `elapsed`
/// milliseconds: all of them at once without a ramp, else
/// `floor(count * min(1, elapsed / duration))`.
pub open spec fn ramp_target(count: int, elapsed: int, duration: int) -> int {
    if duration <= 0 || elapsed >= duration {
        count
    } else {
        count * elapsed / duration
    }
}

/// How many packets a task owes at time `now`: its ramp target less what it
/// has emitted.
pub open spec fn spawn_due(t: SpawnTask, now: u64) -> int {
    let target = ramp_target(t.total_count as int, now - t.start_time, t.duration_ms as int);
    if target > t.spawned_count {
        target - t.spawned_count
    } else {
        0
    }
}

/// A task that has emitted all it owes at time `now`.
pub open spec fn ramped(t: SpawnTask, now: u64) -> SpawnTask {
    SpawnTask { spawned_count: (t.spawned_count + spawn_due(t, now)) as usize, ..t }
}

/// What a list of tasks owes in all at time `now`.
pub open spec fn total_due(ts: Seq<SpawnTask>, now: u64) -> int
    decreases ts.len(),
{
    if ts.len() == 0 {
        0
    } else {
        total_due(ts.drop_last(), now) + spawn_due(ts.last(), now)
    }
}

/// Every task after emitting what it owes at time `now`, in order.
pub open spec fn ramped_all(ts: Seq<SpawnTask>, now: u64) -> Seq<SpawnTask>
    decreases ts.len(),
{
    if ts.len() == 0 {
        Seq::empty()
    } else {
        ramped_all(ts.drop_last(), now).push(ramped(ts.last(), now))
    }
}

/// The tasks that still have packets to emit, in order.
pub open spec fn still_pending(ts: Seq<SpawnTask>) -> Seq<SpawnTask>
    decreases ts.len(),
{
    if ts.len() == 0 {
        Seq::empty()
    } else if ts.last().spawned_count < ts.last().total_count {
        still_pending(ts.drop_last()).push(ts.last())
    } else {
        still_pending(ts.drop_last())
    }
}

/// What the first tasks owe is part of what all of them owe.
pub proof fn lemma_total_due_prefix(ts: Seq<SpawnTask>, i: int, now: u64)
    requires
        0 <= i <= ts.len(),
    ensures
        0 <= total_due(ts.subrange(0, i), now) <= total_due(ts, now),
    decreases ts.len() - i,
{
    if i < ts.len() {
        lemma_total_due_prefix(ts, i + 1, now);
        assert(ts.subrange(0, i + 1).drop_last() =~= ts.subrange(0, i));
        lemma_total_due_nonneg(ts.subrange(0, i), now);
    } else {
        assert(ts.subrange(0, i) =~= ts);
        lemma_total_due_nonneg(ts, now);
    }
}

pub proof fn lemma_total_due_nonneg(ts: Seq<SpawnTask>, now: u64)
    ensures
        total_due(ts, now) >= 0,
    decreases ts.len(),
{
    if ts.len() > 0 {
        lemma_total_due_nonneg(ts.drop_last(), now);
    }
}

/// The emission target of a task at a given time.
pub fn ramp_target_of(count: usize, elapsed: u64, duration: u64) -> (r: usize)
    ensures
        r == ramp_target(count as int, elapsed as int, duration as int),
        r <= count,
{
    if duration == 0 || elapsed >= duration {
        count
    } else {
        assert(count as u128 * elapsed as u128 <= count as u128 * duration as u128) by (nonlinear_arith)
            requires
                elapsed < duration,
        ;
        assert(count as u128 * duration as u128 <= 0xffff_ffff_ffff_ffff * 0xffff_ffff_ffff_ffffu128) by (nonlinear_arith)
            requires
                count <= 0xffff_ffff_ffff_ffff,
                duration <= 0xffff_ffff_ffff_ffff,
        ;
        let q: u128 = count as u128 * elapsed as u128 / duration as u128;
        assert(q <= count) by (nonlinear_arith)
            requires
                q == (count as int * elapsed as int) / (duration as int),
                elapsed < duration,
                duration > 0,
        ;
        q as usize
    }
}

/// Scale of a random draw: a draw `r` stands for `r / 65536` in `[0, 1)`.
pub const DRAW_SCALE: u64 = 65536;

/// The draw that stands for one half, used when no draws are supplied.
pub const MID_DRAW: u16 = 32768;

/// The `k`-th draw of a run: the supplied draws are used in turn, cycling.
pub open spec fn draw_at(draws: Seq<u16>, k: int) -> u16 {
    if draws.len() == 0 {
        MID_DRAW
    } else {
        draws[k % (draws.len() as int)]
    }
}

/// The `k`-th draw of a run.
pub fn draw(draws: &Vec<u16>, k: u128) -> (r: u16)
    ensures
        r == draw_at(draws@, k as int),
{
    if draws.len() == 0 {
        MID_DRAW
    } else {
        draws[(k % draws.len() as u128) as usize]
    }
}

/// A speed drawn uniformly from `base ± variance`, never below zero.
pub open spec fn jittered_speed(base: int, variance: int, r: int) -> int {
    let s = base - variance + (2 * variance * r) / (DRAW_SCALE as int);
    if s < 0 {
        0
    } else {
        s
    }
}

/// The speed of a packet emitted with the given draw.
pub fn jittered_speed_of(base: u32, variance: u32, r: u16) -> (s: u64)
    ensures
        s == jittered_speed(base as int, variance as int, r as int),
        s <= 0x2_0000_0000,
{
    let v2: i64 = 2 * variance as i64;
    assert(0 <= v2 * r as i64 <= 2 * 0xffff_ffff * 0xffff) by (nonlinear_arith)
        requires
            v2 == 2 * variance,
            variance <= 0xffff_ffff,
            r <= 0xffff,
    ;
    let spread: i64 = (v2 * r as i64) / DRAW_SCALE as i64;
    assert(spread <= 2 * variance as i64) by (nonlinear_arith)
        requires
            spread == (2 * variance as int * r as int) / 65536,
            r < 65536,
            0 <= variance,
    ;
    let s: i64 = base as i64 - variance as i64 + spread;
    if s < 0 {
        0
    } else {
        s as u64
    }
}

/// A free-flight velocity component drawn uniformly from `[-2, 2)`.
pub open spec fn scatter_velocity(r: int) -> int {
    (4 * r) / (DRAW_SCALE as int) - 2
}

/// The velocity component of a scattered packet with the given draw.
pub fn scatter_velocity_of(r: u16) -> (v: i64)
    ensures
        v == scatter_velocity(r as int),
{
    (4 * r as i64) / DRAW_SCALE as i64 - 2
}

} // verus!
