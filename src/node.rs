//! Service nodes: their kinds, performance specifications, runtime state and
//! the admission policy applied to an arriving packet.
use vstd::prelude::*;

verus! {

/// Size of an outbound request packet.
pub const REQUEST_SIZE: u32 = 1;

/// Size of a response packet: a response is this many times a request.
pub const RESPONSE_SIZE: u32 = 10;

/// Scale of the bandwidth factor: a factor of 1.0 is written `1000`.
pub const PER_MILLE: u32 = 1000;

/// The kind of a service stage in the pipeline.
#[derive(Clone, Copy, Debug, PartialEq, Eq, Structural)]
pub enum NodeKind {
    /// Where traffic enters, and where responses complete.
    Entry,
    /// Spreads requests over the workers.
    Balancer,
    /// An application server.
    Worker,
    /// A data store: the far end of a request.
    Store,
}

impl NodeKind {
    /// The numeric code of a kind, as hosts exchange it.
    pub fn code(self) -> (r: u32)
        ensures
            r == kind_code(self),
    {
        match self {
            NodeKind::Entry => 0,
            NodeKind::Balancer => 1,
            NodeKind::Worker => 2,
            NodeKind::Store => 3,
        }
    }

    /// The kind with the given numeric code, if there is one.
    pub fn from_code(code: u32) -> (r: Option<NodeKind>)
        ensures
            code < 4 <==> r.is_some(),
            r matches Some(k) ==> kind_code(k) == code,
    {
        match code {
            0 => Some(NodeKind::Entry),
            1 => Some(NodeKind::Balancer),
            2 => Some(NodeKind::Worker),
            3 => Some(NodeKind::Store),
            _ => None,
        }
    }
}

pub open spec fn kind_code(k: NodeKind) -> u32 {
    match k {
        NodeKind::Entry => 0,
        NodeKind::Balancer => 1,
        NodeKind::Worker => 2,
        NodeKind::Store => 3,
    }
}

/// Performance constants of a node.
#[derive(Clone, Copy, Debug, PartialEq, Eq, Structural)]
pub struct NodeSpec {
    /// Number of packets served at once.
    pub max_concurrent: u32,
    /// Milliseconds of service for a packet of unit size; zero makes the
    /// node a pass-through.
    pub service_time_ms: u32,
    /// Number of packets that may wait for a service slot.
    pub queue_capacity: u32,
    /// Placement cost (informational).
    pub cost: u32,
    /// How strongly packet size inflates service time, in thousandths.
    pub bandwidth_permille: u32,
}

/// The bandwidth factor of each kind, in thousandths.
pub open spec fn kind_bandwidth(k: NodeKind) -> u32 {
    match k {
        NodeKind::Entry => 0,
        NodeKind::Balancer => 500,
        NodeKind::Worker => 300,
        NodeKind::Store => 200,
    }
}

/// The specification a node of each kind gets unless one is given.
pub open spec fn default_spec(k: NodeKind) -> NodeSpec {
    match k {
        NodeKind::Entry => NodeSpec {
            max_concurrent: 10000,
            service_time_ms: 0,
            queue_capacity: 10000,
            cost: 0,
            bandwidth_permille: 0,
        },
        NodeKind::Balancer => NodeSpec {
            max_concurrent: 100,
            service_time_ms: 10,
            queue_capacity: 500,
            cost: 100,
            bandwidth_permille: 500,
        },
        NodeKind::Worker => NodeSpec {
            max_concurrent: 20,
            service_time_ms: 50,
            queue_capacity: 50,
            cost: 150,
            bandwidth_permille: 300,
        },
        NodeKind::Store => NodeSpec {
            max_concurrent: 10,
            service_time_ms: 30,
            queue_capacity: 100,
            cost: 200,
            bandwidth_permille: 200,
        },
    }
}

/// The bandwidth factor of a kind, in thousandths.
pub fn bandwidth_of(k: NodeKind) -> (r: u32)
    ensures
        r == kind_bandwidth(k),
        r <= PER_MILLE,
{
    match k {
        NodeKind::Entry => 0,
        NodeKind::Balancer => 500,
        NodeKind::Worker => 300,
        NodeKind::Store => 200,
    }
}

/// Service time of a packet of the given size at a node with this spec:
/// `base * (1 + (size - 1) * factor)`, rounded down to whole milliseconds.
pub open spec fn service_time(spec: NodeSpec, size: u32) -> int {
    spec.service_time_ms * (PER_MILLE + (size - 1) * spec.bandwidth_permille) / (PER_MILLE as int)
}

/// A packet in service, with the time it still needs.
#[derive(Clone, Copy, Debug, PartialEq, Eq, Structural)]
pub struct ProcessingPacket {
    pub packet_idx: usize,
    pub remaining_time_ms: u64,
    pub packet_size: u32,
}

/// A packet waiting for a service slot.
#[derive(Clone, Copy, Debug, PartialEq, Eq, Structural)]
pub struct QueuedPacket {
    pub packet_idx: usize,
}

/// A load figure as an exact fraction; the denominator is never zero.
#[derive(Clone, Copy, Debug, PartialEq, Eq, Structural)]
pub struct LoadRate {
    pub numerator: u64,
    pub denominator: u64,
}

/// What admission control does with a packet that arrives at a node.
#[derive(Clone, Copy, Debug, PartialEq, Eq, Structural)]
pub enum Admission {
    /// A service slot is free: service starts at once.
    Serve,
    /// No slot is free but the queue has room.
    Enqueue,
    /// Slots and queue are full: the packet is dropped.
    Reject,
}

/// The admission decision for a node with the given occupancy.
pub open spec fn admission_of(
    in_service: int,
    queued: int,
    max_concurrent: int,
    queue_capacity: int,
) -> Admission {
    if in_service < max_concurrent {
        Admission::Serve
    } else if queued < queue_capacity {
        Admission::Enqueue
    } else {
        Admission::Reject
    }
}

/// The service entries still running after `delta` more milliseconds, with
/// their remaining time reduced.
pub open spec fn still_in_service(s: Seq<ProcessingPacket>, delta: u64) -> Seq<ProcessingPacket>
    decreases s.len(),
{
    if s.len() == 0 {
        Seq::empty()
    } else if s.last().remaining_time_ms > delta {
        still_in_service(s.drop_last(), delta).push(
            ProcessingPacket { remaining_time_ms: (s.last().remaining_time_ms - delta) as u64, ..s.last() },
        )
    } else {
        still_in_service(s.drop_last(), delta)
    }
}

/// The packets whose service ends within the next `delta` milliseconds, in
/// service order.
pub open spec fn finished_service(s: Seq<ProcessingPacket>, delta: u64) -> Seq<usize>
    decreases s.len(),
{
    if s.len() == 0 {
        Seq::empty()
    } else if s.last().remaining_time_ms > delta {
        finished_service(s.drop_last(), delta)
    } else {
        finished_service(s.drop_last(), delta).push(s.last().packet_idx)
    }
}

/// Every entry either keeps running or finishes.
pub proof fn lemma_service_split(s: Seq<ProcessingPacket>, delta: u64)
    ensures
        still_in_service(s, delta).len() + finished_service(s, delta).len() == s.len(),
    decreases s.len(),
{
    if s.len() > 0 {
        lemma_service_split(s.drop_last(), delta);
    }
}

/// A counter that stops at its largest value.
pub open spec fn saturating(v: int) -> u32 {
    if v > u32::MAX {
        u32::MAX
    } else {
        v as u32
    }
}

/// A service entry for a packet admitted now.
pub open spec fn admitted(spec: NodeSpec, packet_idx: usize, size: u32) -> ProcessingPacket {
    ProcessingPacket { packet_idx, remaining_time_ms: service_time(spec, size) as u64, packet_size: size }
}

/// A node's runtime state with a packet added to its service slots.
pub open spec fn with_service(n: Node, m: Node, e: ProcessingPacket) -> bool {
    &&& m.same_topology(&n)
    &&& m.processing_packets@ == n.processing_packets@.push(e)
    &&& m.queue@ == n.queue@
    &&& m.total_processed == n.total_processed
    &&& m.total_dropped == n.total_dropped
}

/// A node's runtime state with a packet added to its queue.
pub open spec fn with_queued(n: Node, m: Node, packet_idx: usize) -> bool {
    &&& m.same_topology(&n)
    &&& m.processing_packets@ == n.processing_packets@
    &&& m.queue@ == n.queue@.push(QueuedPacket { packet_idx })
    &&& m.total_processed == n.total_processed
    &&& m.total_dropped == n.total_dropped
}

/// A node's runtime state with one more packet dropped.
pub open spec fn with_drop(n: Node, m: Node) -> bool {
    &&& m.same_topology(&n)
    &&& m.processing_packets@ == n.processing_packets@
    &&& m.queue@ == n.queue@
    &&& m.total_processed == n.total_processed
    &&& m.total_dropped == saturating(n.total_dropped + 1)
}

/// A node whose service entries have run for `delta` milliseconds, before
/// any queued packet moves up.
pub open spec fn advanced(n: Node, m: Node, delta: u64) -> bool {
    &&& m.same_topology(&n)
    &&& m.processing_packets@ == still_in_service(n.processing_packets@, delta)
    &&& m.queue@ == n.queue@
    &&& m.total_processed == saturating(n.total_processed + finished_service(n.processing_packets@, delta).len())
    &&& m.total_dropped == n.total_dropped
}

/// A service stage: position, identity, kind, spec and runtime state.
#[derive(Debug)]
pub struct Node {
    pub x: i32,
    pub y: i32,
    pub id: u32,
    pub kind: NodeKind,
    pub spec: NodeSpec,
    /// Packets in service.
    pub processing_packets: Vec<ProcessingPacket>,
    /// Packets waiting, oldest first.
    pub queue: Vec<QueuedPacket>,
    /// Packets whose service here has finished.
    pub total_processed: u32,
    /// Packets dropped here by admission control.
    pub total_dropped: u32,
}

impl Node {
    /// Occupancy within the capacities, and a bandwidth factor of at most one.
    pub open spec fn wf(&self) -> bool {
        &&& self.processing_packets@.len() <= self.spec.max_concurrent
        &&& self.queue@.len() <= self.spec.queue_capacity
        &&& self.spec.bandwidth_permille <= PER_MILLE
    }

    /// Position, identity, kind and spec: what a run of the simulation never
    /// changes.
    pub open spec fn same_topology(&self, other: &Node) -> bool {
        &&& self.x == other.x
        &&& self.y == other.y
        &&& self.id == other.id
        &&& self.kind == other.kind
        &&& self.spec == other.spec
    }

    /// A node of the given kind with that kind's default spec and no traffic.
    pub fn new(id: u32, x: i32, y: i32, kind: NodeKind) -> (r: Node)
        ensures
            r.id == id,
            r.x == x,
            r.y == y,
            r.kind == kind,
            r.spec == default_spec(kind),
            r.processing_packets@.len() == 0,
            r.queue@.len() == 0,
            r.total_processed == 0,
            r.total_dropped == 0,
            r.wf(),
    {
        let spec = match kind {
            NodeKind::Entry => NodeSpec {
                max_concurrent: 10000,
                service_time_ms: 0,
                queue_capacity: 10000,
                cost: 0,
                bandwidth_permille: 0,
            },
            NodeKind::Balancer => NodeSpec {
                max_concurrent: 100,
                service_time_ms: 10,
                queue_capacity: 500,
                cost: 100,
                bandwidth_permille: 500,
            },
            NodeKind::Worker => NodeSpec {
                max_concurrent: 20,
                service_time_ms: 50,
                queue_capacity: 50,
                cost: 150,
                bandwidth_permille: 300,
            },
            NodeKind::Store => NodeSpec {
                max_concurrent: 10,
                service_time_ms: 30,
                queue_capacity: 100,
                cost: 200,
                bandwidth_permille: 200,
            },
        };
        Node {
            x,
            y,
            id,
            kind,
            spec,
            processing_packets: Vec::new(),
            queue: Vec::new(),
            total_processed: 0,
            total_dropped: 0,
        }
    }

    /// Number of packets in service.
    pub fn current_load(&self) -> (r: usize)
        ensures
            r == self.processing_packets@.len(),
    {
        self.processing_packets.len()
    }

    /// Number of packets waiting.
    pub fn queue_size(&self) -> (r: usize)
        ensures
            r == self.queue@.len(),
    {
        self.queue.len()
    }

    /// Packets in service over service slots; zero for a node without slots.
    pub fn load_rate(&self) -> (r: LoadRate)
        ensures
            self.spec.max_concurrent == 0 ==> r == (LoadRate { numerator: 0, denominator: 1 }),
            self.spec.max_concurrent > 0 ==> r == (LoadRate {
                numerator: self.processing_packets@.len() as u64,
                denominator: self.spec.max_concurrent as u64,
            }),
    {
        if self.spec.max_concurrent == 0 {
            LoadRate { numerator: 0, denominator: 1 }
        } else {
            LoadRate {
                numerator: self.processing_packets.len() as u64,
                denominator: self.spec.max_concurrent as u64,
            }
        }
    }

    /// The admission decision for a packet arriving now.
    pub fn admission(&self) -> (r: Admission)
        ensures
            r == admission_of(
                self.processing_packets@.len() as int,
                self.queue@.len() as int,
                self.spec.max_concurrent as int,
                self.spec.queue_capacity as int,
            ),
    {
        if self.processing_packets.len() < self.spec.max_concurrent as usize {
            Admission::Serve
        } else if self.queue.len() < self.spec.queue_capacity as usize {
            Admission::Enqueue
        } else {
            Admission::Reject
        }
    }

    /// Service time at this node of a packet of the given size.
    pub fn service_time_for(&self, size: u32) -> (r: u64)
        requires
            self.spec.bandwidth_permille <= PER_MILLE,
            1 <= size <= RESPONSE_SIZE,
        ensures
            r == service_time(self.spec, size),
    {
        let extra: u64 = size as u64 - 1;
        let bw: u64 = self.spec.bandwidth_permille as u64;
        assert(extra * bw <= 9000) by (nonlinear_arith)
            requires
                extra <= 9,
                bw <= 1000,
        ;
        let factor: u64 = PER_MILLE as u64 + extra * bw;
        assert(self.spec.service_time_ms as u64 * factor <= 0xffff_ffff * 10000) by (nonlinear_arith)
            requires
                factor <= 10000,
                self.spec.service_time_ms <= 0xffff_ffff,
        ;
        self.spec.service_time_ms as u64 * factor / PER_MILLE as u64
    }
    /// Runs every service entry for `delta` milliseconds: entries that reach
    /// zero leave and are counted as served, and are returned in service
    /// order; the others count down.
    pub fn advance(&mut self, delta: u64) -> (done: Vec<usize>)
        requires
            old(self).wf(),
        ensures
            final(self).wf(),
            advanced(*old(self), *final(self), delta),
            done@ == finished_service(old(self).processing_packets@, delta),
    {
        let mut kept: Vec<ProcessingPacket> = Vec::new();
        let mut done: Vec<usize> = Vec::new();
        let mut i: usize = 0;
        while i < self.processing_packets.len()
            invariant
                i <= self.processing_packets@.len(),
                self.processing_packets@ == old(self).processing_packets@,
                kept@ == still_in_service(self.processing_packets@.subrange(0, i as int), delta),
                done@ == finished_service(self.processing_packets@.subrange(0, i as int), delta),
            decreases self.processing_packets@.len() - i,
        {
            assert(self.processing_packets@.subrange(0, i as int + 1).drop_last()
                =~= self.processing_packets@.subrange(0, i as int));
            let e = self.processing_packets[i];
            if e.remaining_time_ms > delta {
                kept.push(ProcessingPacket { remaining_time_ms: e.remaining_time_ms - delta, ..e });
            } else {
                done.push(e.packet_idx);
            }
            i = i + 1;
        }
        assert(self.processing_packets@.subrange(0, i as int) =~= self.processing_packets@);
        proof {
            lemma_service_split(self.processing_packets@, delta);
        }
        let served: u64 = self.total_processed as u64 + done.len() as u64;
        self.total_processed = if served > u32::MAX as u64 { u32::MAX } else { served as u32 };
        self.processing_packets = kept;
        done
    }
}

} // verus!
