//! The rewriting rules as mathematics: what one rewrite does to the model of
//! a store, when a rewrite is defined, and what a whole run computes.

use crate::net::{pointer, Kind, NodeView, PortView};
use vstd::prelude::*;

verus! {

/// The model of a store: one entry per slot, `None` where a node was removed.
pub type Graph = Seq<Option<NodeView>>;

/// The largest index a pointer can name.
pub open spec fn index_limit() -> int {
    u32::MAX as int
}

/// Agents are the nodes that take part in rewriting.
pub open spec fn is_agent(kind: Kind) -> bool {
    kind == Kind::CON || kind == Kind::DUP || kind == Kind::ERA
}

/// Agents with two auxiliary ports.
pub open spec fn is_binary(kind: Kind) -> bool {
    kind == Kind::CON || kind == Kind::DUP
}

/// Slot `i` holds an agent.
pub open spec fn holds_agent(nodes: Graph, i: int) -> bool {
    &&& 0 <= i < nodes.len()
    &&& nodes[i] matches Some(node)
    &&& is_agent(node.kind)
}

/// Slot `i` holds an agent whose principal port is wired to the principal
/// port of some node: the agent opens an active pair.
pub open spec fn is_active(nodes: Graph, i: int) -> bool {
    &&& holds_agent(nodes, i)
    &&& nodes[i].unwrap().ports.len() > 0
    &&& nodes[i].unwrap().ports[0] matches PortView::Pointer { slot, .. }
    &&& slot == 0
}

/// The slot that the principal port of the agent in slot `i` names.
pub open spec fn counterpart(nodes: Graph, i: int) -> int {
    nodes[i].unwrap().ports[0]->index as int
}

/// Slot `i` opens an active pair and no earlier slot does.
pub open spec fn is_first_active(nodes: Graph, i: int) -> bool {
    &&& is_active(nodes, i)
    &&& forall|j: int| 0 <= j < i ==> !is_active(nodes, j)
}

/// The slot at which a scan in increasing order meets its first active
/// pair, if there is one.
pub open spec fn first_active(nodes: Graph) -> Option<int> {
    if exists|i: int| is_first_active(nodes, i) {
        Some(choose|i: int| is_first_active(nodes, i))
    } else {
        None
    }
}

/// The store after the wire that leaves port `port` of node `from` has its
/// far end pointed at port `to_port` of node `to`. Nothing changes where
/// `from` is gone, where the port is free, or where the far node is gone.
pub open spec fn relinked(nodes: Graph, from: int, port: int, to: nat, to_port: nat) -> Graph {
    if 0 <= from < nodes.len() && nodes[from] is Some && 0 <= port
        < nodes[from].unwrap().ports.len() {
        match nodes[from].unwrap().ports[port] {
            PortView::Pointer { index, slot } => {
                if index < nodes.len() && nodes[index as int] is Some && slot
                    < nodes[index as int].unwrap().ports.len() {
                    let far = nodes[index as int].unwrap();
                    nodes.update(
                        index as int,
                        Some(
                            NodeView {
                                kind: far.kind,
                                ports: far.ports.update(
                                    slot as int,
                                    PortView::Pointer { index: to, slot: to_port },
                                ),
                            },
                        ),
                    )
                } else {
                    nodes
                }
            },
            PortView::Free { .. } => nodes,
        }
    } else {
        nodes
    }
}

/// Following the wire that leaves port `port` of node `from` stays inside
/// the store: `from` is a slot; where it holds a node, `port` is one of its
/// ports; and where that port is a pointer, it names a slot and, where that
/// slot holds a node, one of its ports.
pub open spec fn relink_defined(nodes: Graph, from: int, port: int) -> bool {
    &&& 0 <= from < nodes.len()
    &&& nodes[from] matches Some(node) ==> {
        &&& 0 <= port < node.ports.len()
        &&& node.ports[port] matches PortView::Pointer { index, slot } ==> {
            &&& index < nodes.len()
            &&& nodes[index as int] matches Some(far) ==> slot < far.ports.len()
        }
    }
}

/// An eraser with the given principal port.
pub open spec fn eraser(port: PortView) -> NodeView {
    NodeView { kind: Kind::ERA, ports: seq![port] }
}

/// The two ports of a pair are wired to each other: port `p` of the node
/// in slot `a` holds `near` and points at port `q` of the node in slot `b`,
/// which holds `far` and points back.
pub open spec fn closed_pair(near: PortView, far: PortView, a: int, p: int, b: int, q: int) -> bool {
    near == pointer(b, q) && far == pointer(a, p)
}

/// The marker that annihilation leaves for one pair of auxiliary ports: a
/// `LOOP` where the two ports are wired to each other, else a `WIRE` that
/// records both ends, that of the scanned agent first.
pub open spec fn joint(near: PortView, far: PortView, a: int, p: int, b: int, q: int) -> NodeView {
    if closed_pair(near, far, a, p, b, q) {
        NodeView { kind: Kind::LOOP, ports: Seq::empty() }
    } else {
        NodeView { kind: Kind::WIRE, ports: seq![near, far] }
    }
}

/// The store with slots `a` and `b` emptied.
pub open spec fn without_pair(nodes: Graph, a: int, b: int) -> Graph {
    nodes.update(a, None).update(b, None)
}

/// Commutation of the binary agent in slot `agent` with the eraser in slot
/// `era`: one new eraser per auxiliary port of the agent, the far end of
/// each auxiliary wire pointed at its eraser, both old nodes removed.
pub open spec fn commuted(nodes: Graph, agent: int, era: int) -> Graph {
    let ports = nodes[agent].unwrap().ports;
    let grown = nodes.push(Some(eraser(ports[1]))).push(Some(eraser(ports[2])));
    let first = relinked(grown, agent, 1, nodes.len(), 0);
    let second = relinked(first, agent, 2, nodes.len() + 1, 0);
    without_pair(second, agent, era)
}

/// Commutation stays inside the store.
pub open spec fn commute_defined(nodes: Graph, agent: int) -> bool {
    let ports = nodes[agent].unwrap().ports;
    let grown = nodes.push(Some(eraser(ports[1]))).push(Some(eraser(ports[2])));
    &&& ports.len() >= 3
    &&& nodes.len() + 1 <= index_limit()
    &&& relink_defined(grown, agent, 1)
    &&& relink_defined(relinked(grown, agent, 1, nodes.len(), 0), agent, 2)
}

/// The auxiliary port of the counterpart that is paired with auxiliary port
/// `port` of the scanned agent: the other one for `CON`, the same one for
/// `DUP`.
pub open spec fn paired_port(kind: Kind, port: int) -> int {
    if kind == Kind::CON {
        3 - port
    } else {
        port
    }
}

/// The store after auxiliary port `p` of the agent in slot `a` is joined
/// with the port paired to it on the agent in slot `b`: the marker for the
/// pair is appended and, where it is a `WIRE`, the far end of the first
/// port is pointed at port 0 of the `WIRE` and the far end of the second at
/// its port 1. The ports are read as the store holds them at that moment.
/// The definition is opaque to the prover until `reveal(joined)`.
#[verifier::opaque]
pub open spec fn joined(nodes: Graph, a: int, b: int, p: int) -> Graph {
    let q = paired_port(nodes[a].unwrap().kind, p);
    let near = nodes[a].unwrap().ports[p];
    let far = nodes[b].unwrap().ports[q];
    let grown = nodes.push(Some(joint(near, far, a, p, b, q)));
    if closed_pair(near, far, a, p, b, q) {
        grown
    } else {
        relinked(relinked(grown, a, p, nodes.len(), 0), b, q, nodes.len(), 1)
    }
}

/// Joining a pair stays inside the store: both ports are there, the index
/// of the marker fits the pointer type, and where the marker is a `WIRE`
/// both wires can be followed.
pub open spec fn join_defined(nodes: Graph, a: int, b: int, p: int) -> bool {
    let q = paired_port(nodes[a].unwrap().kind, p);
    let near = nodes[a].unwrap().ports[p];
    let far = nodes[b].unwrap().ports[q];
    let grown = nodes.push(Some(joint(near, far, a, p, b, q)));
    &&& nodes.len() <= index_limit()
    &&& 0 <= p < nodes[a].unwrap().ports.len()
    &&& 0 <= q < nodes[b].unwrap().ports.len()
    &&& !closed_pair(near, far, a, p, b, q) ==> {
        &&& relink_defined(grown, a, p)
        &&& relink_defined(relinked(grown, a, p, nodes.len(), 0), b, q)
    }
}

/// Annihilation of the agents in slots `a` (the scanned one) and `b`, both
/// of one binary kind: the first pair of auxiliary ports is joined, then
/// the second, then both agents are removed.
pub open spec fn annihilated(nodes: Graph, a: int, b: int) -> Graph {
    without_pair(joined(joined(nodes, a, b, 1), a, b, 2), a, b)
}

/// Annihilation stays inside the store.
pub open spec fn annihilate_defined(nodes: Graph, a: int, b: int) -> bool {
    &&& join_defined(nodes, a, b, 1)
    &&& join_defined(joined(nodes, a, b, 1), a, b, 2)
}

/// The rewrite rule for an active pair, by the kinds of its two nodes.
pub enum Rule {
    /// `CON`-`ERA` and `DUP`-`ERA`, in either order.
    Commute,
    /// `CON`-`CON` and `DUP`-`DUP`.
    Annihilate,
    /// `ERA`-`ERA`.
    Erase,
    /// `CON`-`DUP`, and every pair with a `WIRE` or a `LOOP`: no rewrite.
    Stuck,
}

/// The rule table. It is symmetric in its arguments.
pub open spec fn rule_for(scanned: Kind, counter: Kind) -> Rule {
    if scanned == Kind::ERA && counter == Kind::ERA {
        Rule::Erase
    } else if (is_binary(scanned) && counter == Kind::ERA) || (scanned == Kind::ERA && is_binary(
        counter,
    )) {
        Rule::Commute
    } else if is_binary(scanned) && scanned == counter {
        Rule::Annihilate
    } else {
        Rule::Stuck
    }
}

/// The rule for the active pair that the agent in slot `a` opens.
pub open spec fn rule_at(nodes: Graph, a: int) -> Rule {
    rule_for(nodes[a].unwrap().kind, nodes[counterpart(nodes, a)].unwrap().kind)
}

/// Of a commuting pair opened in slot `a`, the slot of the binary agent.
pub open spec fn binary_of(nodes: Graph, a: int) -> int {
    if nodes[a].unwrap().kind == Kind::ERA {
        counterpart(nodes, a)
    } else {
        a
    }
}

/// Of a commuting pair opened in slot `a`, the slot of the eraser.
pub open spec fn eraser_of(nodes: Graph, a: int) -> int {
    if nodes[a].unwrap().kind == Kind::ERA {
        a
    } else {
        counterpart(nodes, a)
    }
}

/// The store after the active pair opened in slot `a` is rewritten.
pub open spec fn rewritten(nodes: Graph, a: int) -> Graph {
    let b = counterpart(nodes, a);
    match rule_at(nodes, a) {
        Rule::Commute => commuted(nodes, binary_of(nodes, a), eraser_of(nodes, a)),
        Rule::Annihilate => annihilated(nodes, a, b),
        Rule::Erase => without_pair(nodes, a, b),
        Rule::Stuck => nodes,
    }
}

/// Rewriting the active pair opened in slot `a` stays inside the store: the
/// counterpart is there, and the rule finds the ports it reads.
pub open spec fn rewrite_defined(nodes: Graph, a: int) -> bool {
    let b = counterpart(nodes, a);
    &&& 0 <= b < nodes.len()
    &&& nodes[b] is Some
    &&& match rule_at(nodes, a) {
        Rule::Commute => commute_defined(nodes, binary_of(nodes, a)),
        Rule::Annihilate => annihilate_defined(nodes, a, b),
        Rule::Erase => true,
        Rule::Stuck => true,
    }
}

/// One call of the dispatcher rewrites the store: the first active pair in
/// slot order is chosen and rewritten by its rule.
pub open spec fn reducible(nodes: Graph) -> bool {
    first_active(nodes) matches Some(a) && !(rule_at(nodes, a) is Stuck)
}

/// The store after one call of the dispatcher.
pub open spec fn step(nodes: Graph) -> Graph {
    match first_active(nodes) {
        Some(a) => rewritten(nodes, a),
        None => nodes,
    }
}

/// One call of the dispatcher stays inside the store: the indices fit the
/// pointer type, every agent that the scan reads has a principal port, and
/// the rewrite of the chosen pair is defined.
pub open spec fn step_defined(nodes: Graph) -> bool {
    &&& nodes.len() <= index_limit()
    &&& forall|j: int|
        holds_agent(nodes, j) && (first_active(nodes) matches Some(a) ==> j <= a)
            ==> nodes[j].unwrap().ports.len() > 0
    &&& first_active(nodes) matches Some(a) ==> rewrite_defined(nodes, a)
}

/// The store after `n` calls of the dispatcher.
pub open spec fn run(nodes: Graph, n: nat) -> Graph
    decreases n,
{
    if n == 0 {
        nodes
    } else {
        step(run(nodes, (n - 1) as nat))
    }
}

/// Every call of the dispatcher in a run from `nodes` stays inside the store.
pub open spec fn run_defined(nodes: Graph) -> bool {
    forall|n: nat| step_defined(#[trigger] run(nodes, n))
}

/// The store with its empty slots closed up, the nodes in their old order.
pub open spec fn compacted(nodes: Graph) -> Graph {
    nodes.filter(|slot: Option<NodeView>| slot is Some)
}

/// Removing an empty slot from a store does not change what compaction
/// leaves of it.
pub proof fn lemma_compacted_remove(nodes: Graph, i: int)
    requires
        0 <= i < nodes.len(),
        nodes[i] is None,
    ensures
        compacted(nodes.remove(i)) == compacted(nodes),
{
    let keep = |slot: Option<NodeView>| slot is Some;
    let head = nodes.take(i);
    let gap = seq![nodes[i]];
    let tail = nodes.skip(i + 1);
    assert(nodes =~= head + gap + tail);
    Seq::filter_distributes_over_add(head + gap, tail, keep);
    Seq::filter_distributes_over_add(head, gap, keep);
    Seq::filter_distributes_over_add(head, tail, keep);
    assert(gap.filter(keep) =~= Seq::<Option<NodeView>>::empty()) by {
        reveal_with_fuel(Seq::filter, 2);
    }
}

/// Compaction leaves a store without empty slots as it is.
pub proof fn lemma_compacted_full(nodes: Graph)
    requires
        forall|i: int| 0 <= i < nodes.len() ==> nodes[i] is Some,
    ensures
        compacted(nodes) == nodes,
    decreases nodes.len(),
{
    reveal_with_fuel(Seq::filter, 1);
    if nodes.len() > 0 {
        lemma_compacted_full(nodes.drop_last());
    }
}

/// A scan that stops at slot `i` stops nowhere else.
pub proof fn lemma_first_active_is(nodes: Graph, i: int)
    requires
        is_first_active(nodes, i),
    ensures
        first_active(nodes) == Some(i),
{
    let chosen = choose|k: int| is_first_active(nodes, k);
    assert(is_first_active(nodes, chosen));
}

/// A store without an active pair has no first one.
pub proof fn lemma_no_active(nodes: Graph)
    requires
        forall|i: int| 0 <= i < nodes.len() ==> !is_active(nodes, i),
    ensures
        first_active(nodes) is None,
{
    if exists|i: int| is_first_active(nodes, i) {
        let chosen = choose|k: int| is_first_active(nodes, k);
        assert(is_active(nodes, chosen));
    }
}

/// The rule table does not ask which node of a pair the scan met first.
pub proof fn lemma_rule_symmetric(scanned: Kind, counter: Kind)
    ensures
        rule_for(scanned, counter) == rule_for(counter, scanned),
{
}

/// The first active pair decides the call: where there is no rule for it,
/// the dispatcher makes no rewrite and leaves the store as it is, whatever
/// pairs come after it.
pub proof fn lemma_first_pair_decides(nodes: Graph, a: int)
    requires
        is_first_active(nodes, a),
    ensures
        reducible(nodes) <==> !(rule_at(nodes, a) is Stuck),
        step(nodes) == rewritten(nodes, a),
        rule_at(nodes, a) is Stuck ==> step(nodes) == nodes,
{
    lemma_first_active_is(nodes, a);
}

/// A call of the dispatcher that makes no rewrite leaves a store on which
/// the next call makes none either, and so does every call after it.
pub proof fn lemma_stuck_stays(nodes: Graph, n: nat)
    requires
        !reducible(nodes),
    ensures
        step(nodes) == nodes,
        run(nodes, n) == nodes,
        !reducible(run(nodes, n)),
    decreases n,
{
    if n > 0 {
        lemma_stuck_stays(nodes, (n - 1) as nat);
    }
}

/// Where some agent opens an active pair, the scan meets a first one, at
/// that agent or before it.
pub proof fn lemma_active_has_first(nodes: Graph, i: int)
    requires
        is_active(nodes, i),
    ensures
        first_active(nodes) matches Some(a) && a <= i,
    decreases i,
{
    if exists|j: int| 0 <= j < i && is_active(nodes, j) {
        let j = choose|j: int| 0 <= j < i && is_active(nodes, j);
        lemma_active_has_first(nodes, j);
    } else {
        lemma_first_active_is(nodes, i);
    }
}

} // verus!
