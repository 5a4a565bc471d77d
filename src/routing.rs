//! Where a packet goes after a node: the routing table, first-of-kind search
//! and least-loaded worker selection.
use vstd::prelude::*;
use crate::node::{Node, NodeKind};

verus! {

/// The next step of a packet that leaves a node.
#[derive(Clone, Copy, Debug, PartialEq, Eq, Structural)]
pub enum Hop {
    /// On to the first node of this kind in registry order.
    First(NodeKind),
    /// On to the least-loaded worker.
    LeastLoadedWorker,
    /// Back to the worker visited on the outbound trip.
    AnchorWorker,
    /// The request has reached the store: it becomes its response and heads
    /// back to the anchored worker.
    TurnAround,
    /// The response is home: the trip has completed.
    Complete,
}

/// The routing table, by kind of the node left and direction of travel.
pub open spec fn hop_of(kind: NodeKind, is_response: bool) -> Hop {
    if !is_response {
        match kind {
            NodeKind::Entry => Hop::First(NodeKind::Balancer),
            NodeKind::Balancer => Hop::LeastLoadedWorker,
            NodeKind::Worker => Hop::First(NodeKind::Store),
            NodeKind::Store => Hop::TurnAround,
        }
    } else {
        match kind {
            NodeKind::Store => Hop::AnchorWorker,
            NodeKind::Worker => Hop::First(NodeKind::Balancer),
            NodeKind::Balancer => Hop::First(NodeKind::Entry),
            NodeKind::Entry => Hop::Complete,
        }
    }
}

/// The next step of a packet leaving a node of the given kind.
pub fn next_hop(kind: NodeKind, is_response: bool) -> (r: Hop)
    ensures
        r == hop_of(kind, is_response),
{
    if !is_response {
        match kind {
            NodeKind::Entry => Hop::First(NodeKind::Balancer),
            NodeKind::Balancer => Hop::LeastLoadedWorker,
            NodeKind::Worker => Hop::First(NodeKind::Store),
            NodeKind::Store => Hop::TurnAround,
        }
    } else {
        match kind {
            NodeKind::Store => Hop::AnchorWorker,
            NodeKind::Worker => Hop::First(NodeKind::Balancer),
            NodeKind::Balancer => Hop::First(NodeKind::Entry),
            NodeKind::Entry => Hop::Complete,
        }
    }
}

/// The index of the first node of kind `k` among the first `n` nodes.
pub open spec fn first_of_kind(nodes: Seq<Node>, k: NodeKind, n: int) -> Option<int>
    decreases n,
{
    if n <= 0 {
        None
    } else {
        match first_of_kind(nodes, k, n - 1) {
            Some(i) => Some(i),
            None => if nodes[n - 1].kind == k {
                Some(n - 1)
            } else {
                None
            },
        }
    }
}

/// Packets in service and waiting at a node.
pub open spec fn node_load(n: Node) -> int {
    n.processing_packets@.len() as int + n.queue@.len() as int
}

/// Service slots of a node, counting a node without slots as one.
pub open spec fn node_slots(n: Node) -> int {
    if n.spec.max_concurrent == 0 {
        1
    } else {
        n.spec.max_concurrent as int
    }
}

/// Node `a` carries strictly less load per slot than node `b`.
pub open spec fn lighter(a: Node, b: Node) -> bool {
    node_load(a) * node_slots(b) < node_load(b) * node_slots(a)
}

/// The least-loaded worker among the first `n` nodes: a worker replaces the
/// best so far only when it is strictly lighter, so the first wins ties.
pub open spec fn best_worker(nodes: Seq<Node>, n: int) -> Option<int>
    decreases n,
{
    if n <= 0 {
        None
    } else {
        let prev = best_worker(nodes, n - 1);
        if nodes[n - 1].kind == NodeKind::Worker && (match prev {
            None => true,
            Some(b) => lighter(nodes[n - 1], nodes[b]),
        }) {
            Some(n - 1)
        } else {
            prev
        }
    }
}

pub proof fn lemma_first_of_kind_range(nodes: Seq<Node>, k: NodeKind, n: int)
    ensures
        first_of_kind(nodes, k, n) matches Some(i) ==> 0 <= i < n && nodes[i].kind == k,
    decreases n,
{
    if n > 0 {
        lemma_first_of_kind_range(nodes, k, n - 1);
    }
}

pub proof fn lemma_best_worker_range(nodes: Seq<Node>, n: int)
    ensures
        best_worker(nodes, n) matches Some(i) ==> 0 <= i < n && nodes[i].kind == NodeKind::Worker,
    decreases n,
{
    if n > 0 {
        lemma_best_worker_range(nodes, n - 1);
    }
}

/// The first node of the given kind.
pub fn find_next_node_by_type(nodes: &Vec<Node>, k: NodeKind) -> (r: Option<usize>)
    ensures
        r matches Some(i) ==> first_of_kind(nodes@, k, nodes@.len() as int) == Some(i as int),
        r is None ==> first_of_kind(nodes@, k, nodes@.len() as int) is None,
        r matches Some(i) ==> i < nodes@.len() && nodes@[i as int].kind == k,
{
    let mut found: Option<usize> = None;
    let mut i: usize = 0;
    while i < nodes.len()
        invariant
            i <= nodes@.len(),
            found matches Some(f) ==> first_of_kind(nodes@, k, i as int) == Some(f as int),
            found is None ==> first_of_kind(nodes@, k, i as int) is None,
        decreases nodes@.len() - i,
    {
        if found.is_none() && nodes[i].kind == k {
            found = Some(i);
        }
        i = i + 1;
    }
    proof {
        lemma_first_of_kind_range(nodes@, k, nodes@.len() as int);
    }
    found
}

/// Load-balanced choice: the worker with the lowest `(in service + queued) /
/// slots`, the first in registry order among equals.
pub fn find_next_server_target(nodes: &Vec<Node>) -> (r: Option<usize>)
    ensures
        r matches Some(i) ==> best_worker(nodes@, nodes@.len() as int) == Some(i as int),
        r is None ==> best_worker(nodes@, nodes@.len() as int) is None,
        r matches Some(i) ==> i < nodes@.len() && nodes@[i as int].kind == NodeKind::Worker,
{
    let mut best: Option<usize> = None;
    let mut i: usize = 0;
    while i < nodes.len()
        invariant
            i <= nodes@.len(),
            best matches Some(b) ==> best_worker(nodes@, i as int) == Some(b as int) && b < i,
            best is None ==> best_worker(nodes@, i as int) is None,
        decreases nodes@.len() - i,
    {
        let n = &nodes[i];
        if n.kind == NodeKind::Worker {
            let take = match best {
                None => true,
                Some(b) => {
                    let m = &nodes[b];
                    let load_n: u128 = n.processing_packets.len() as u128 + n.queue.len() as u128;
                    let load_m: u128 = m.processing_packets.len() as u128 + m.queue.len() as u128;
                    let slots_n: u128 = if n.spec.max_concurrent == 0 { 1 } else { n.spec.max_concurrent as u128 };
                    let slots_m: u128 = if m.spec.max_concurrent == 0 { 1 } else { m.spec.max_concurrent as u128 };
                    assert(load_n * slots_m <= 0x2_0000_0000_0000_0000 * 0x1_0000_0000u128) by (nonlinear_arith)
                        requires
                            load_n <= 0x2_0000_0000_0000_0000u128,
                            slots_m <= 0x1_0000_0000u128,
                    ;
                    assert(load_m * slots_n <= 0x2_0000_0000_0000_0000 * 0x1_0000_0000u128) by (nonlinear_arith)
                        requires
                            load_m <= 0x2_0000_0000_0000_0000u128,
                            slots_n <= 0x1_0000_0000u128,
                    ;
                    load_n * slots_m < load_m * slots_n
                },
            };
            if take {
                best = Some(i);
            }
        }
        i = i + 1;
    }
    proof {
        lemma_best_worker_range(nodes@, nodes@.len() as int);
    }
    best
}

} // verus!
