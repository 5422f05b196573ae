//! Wire symmetry: what it means for the ports of a store to point back at
//! each other, among the agents (a linked store) and among all nodes (a
//! symmetric store), and that a linked store can always be rewritten.

use crate::model::{
    binary_of, closed_pair, counterpart, eraser, first_active, holds_agent, index_limit,
    is_active, is_agent, join_defined, joined, joint, paired_port, relink_defined, relinked,
    rewrite_defined, rule_at, step_defined, Graph,
};
use crate::net::{pointer, Kind, PortView};
use vstd::prelude::*;

verus! {

/// The number of ports of an agent: a principal port, and two auxiliary
/// ports on a binary agent. Markers are not held to a number.
pub open spec fn arity(kind: Kind) -> nat {
    match kind {
        Kind::CON => 3,
        Kind::DUP => 3,
        Kind::ERA => 1,
        Kind::WIRE => 0,
        Kind::LOOP => 0,
    }
}

/// Port `p` of the node in slot `n` is free, or it names a slot of the
/// store and one of two things holds: the node there points back from the
/// port named, or the node there was removed and the port named is not its
/// principal one. A rewrite leaves such a pointer to a removed node only
/// where a port of that node was wired to itself.
pub open spec fn mirrored(nodes: Graph, n: int, p: int) -> bool {
    match nodes[n].unwrap().ports[p] {
        PortView::Pointer { index, slot } => {
            &&& index < nodes.len()
            &&& match nodes[index as int] {
                Some(far) => slot < far.ports.len() && far.ports[slot as int] == pointer(n, p),
                None => slot != 0,
            }
        },
        PortView::Free { .. } => true,
    }
}

/// Slot `n` holds a node whose ports are held to symmetry: an agent, or any
/// node where the markers are held to it as well.
pub open spec fn in_scope(nodes: Graph, n: int, markers_too: bool) -> bool {
    &&& 0 <= n < nodes.len()
    &&& nodes[n] matches Some(node)
    &&& (markers_too || is_agent(node.kind))
}

/// Every agent has the ports of its kind, and every port of every node in
/// scope is mirrored.
pub open spec fn mirrored_throughout(nodes: Graph, markers_too: bool) -> bool {
    &&& forall|n: int| #[trigger]
        holds_agent(nodes, n) ==> nodes[n].unwrap().ports.len() == arity(nodes[n].unwrap().kind)
    &&& forall|n: int, p: int|
        in_scope(nodes, n, markers_too) && 0 <= p < nodes[n].unwrap().ports.len()
            ==> #[trigger] mirrored(nodes, n, p)
}

/// Wire symmetry among the agents: every agent has the ports of its kind,
/// and every port of an agent is mirrored. The ports of the markers are
/// held to nothing.
pub open spec fn linked(nodes: Graph) -> bool {
    mirrored_throughout(nodes, false)
}

/// Wire symmetry among all nodes: the store is linked, and the ports of its
/// markers are mirrored as well.
pub open spec fn symmetric(nodes: Graph) -> bool {
    mirrored_throughout(nodes, true)
}

/// The next rewrite commutes a binary agent whose two auxiliary ports are
/// wired to each other. This is the one rewrite that breaks wire symmetry
/// among the agents: of the two erasers it makes, the first points at the
/// second, and the second at the port of the agent that is gone.
pub open spec fn commutes_looped_agent(nodes: Graph) -> bool {
    &&& first_active(nodes) matches Some(a)
    &&& rule_at(nodes, a) is Commute
    &&& nodes[binary_of(nodes, a)].unwrap().ports[1] == pointer(binary_of(nodes, a), 2)
}

/// Auxiliary port `k` of the node in slot `a` is a pointer to another node
/// that is there.
pub open spec fn leads_away(nodes: Graph, a: int, k: int) -> bool {
    &&& nodes[a].unwrap().ports[k] matches PortView::Pointer { index, .. }
    &&& index != a
    &&& index < nodes.len()
    &&& nodes[index as int] is Some
}

/// The agent in slot `a` has an auxiliary port that is joined twice with
/// a far end that can answer only once: a port wired to another node, or,
/// on a `DUP`, the two auxiliary ports wired to each other.
pub open spec fn joins_twice(nodes: Graph, a: int) -> bool {
    ||| leads_away(nodes, a, 1)
    ||| leads_away(nodes, a, 2)
    ||| (nodes[a].unwrap().kind == Kind::DUP && nodes[a].unwrap().ports[1] == pointer(a, 2))
}

/// The next rewrite annihilates a binary agent with itself (the agent's
/// principal port is wired to itself) and joins one of its auxiliary ports
/// twice. The far end of that port is pointed at a `WIRE` twice and points
/// back at the second only: the rewrite keeps the agents symmetric, and
/// leaves a `WIRE` that is not.
pub open spec fn annihilates_itself(nodes: Graph) -> bool {
    &&& first_active(nodes) matches Some(a)
    &&& rule_at(nodes, a) is Annihilate
    &&& counterpart(nodes, a) == a
    &&& joins_twice(nodes, a)
}

/// Every pointer held by an agent names a slot of the store and, where
/// that slot holds a node, one of its ports.
pub open spec fn bounded(nodes: Graph) -> bool {
    forall|n: int, p: int|
        holds_agent(nodes, n) && 0 <= p < nodes[n].unwrap().ports.len() ==> (
        #[trigger] nodes[n].unwrap().ports[p] matches PortView::Pointer { index, slot } ==> {
            &&& index < nodes.len()
            &&& nodes[index as int] matches Some(far) ==> slot < far.ports.len()
        })
}

/// The far end that `relinked` overwrites: the slot and the port that port
/// `port` of node `from` names, where both nodes are there.
pub open spec fn far_end(nodes: Graph, from: int, port: int) -> Option<(int, int)> {
    if 0 <= from < nodes.len() && nodes[from] is Some && 0 <= port
        < nodes[from].unwrap().ports.len() {
        match nodes[from].unwrap().ports[port] {
            PortView::Pointer { index, slot } => {
                if index < nodes.len() && nodes[index as int] is Some && slot
                    < nodes[index as int].unwrap().ports.len() {
                    Some((index as int, slot as int))
                } else {
                    None
                }
            },
            PortView::Free { .. } => None,
        }
    } else {
        None
    }
}

/// Moving the far end of a wire changes one port and nothing else: every
/// slot keeps its kind and the number of its ports, and every port but the
/// far end keeps its content.
pub proof fn lemma_relinked_ports(nodes: Graph, from: int, port: int, to: nat, to_port: nat)
    ensures
        relinked(nodes, from, port, to, to_port).len() == nodes.len(),
        forall|i: int|
            0 <= i < nodes.len() ==> (#[trigger] relinked(nodes, from, port, to, to_port)[i]
                is Some <==> nodes[i] is Some),
        forall|i: int|
            0 <= i < nodes.len() && nodes[i] is Some ==> {
                let after = #[trigger] relinked(nodes, from, port, to, to_port)[i].unwrap();
                &&& after.kind == nodes[i].unwrap().kind
                &&& after.ports.len() == nodes[i].unwrap().ports.len()
                &&& forall|q: int|
                    0 <= q < after.ports.len() ==> #[trigger] after.ports[q] == if far_end(
                        nodes,
                        from,
                        port,
                    ) == Some((i, q)) {
                        PortView::Pointer { index: to, slot: to_port }
                    } else {
                        nodes[i].unwrap().ports[q]
                    }
            },
{
}

/// A linked store with room for two more nodes can be rewritten: no
/// pointer that the dispatcher follows leads out of the store.
pub proof fn lemma_linked_step_defined(nodes: Graph)
    requires
        linked(nodes),
        nodes.len() < index_limit(),
    ensures
        step_defined(nodes),
{
    if first_active(nodes) is Some {
        let a = first_active(nodes).unwrap();
        lemma_linked_rewrite_defined(nodes, a);
    }
    assert forall|j: int| holds_agent(nodes, j) implies nodes[j].unwrap().ports.len() > 0 by {}
}

/// In a linked store, an agent that opens an active pair faces a node that
/// is there and whose principal port points back.
pub proof fn lemma_linked_pair(nodes: Graph, a: int)
    requires
        linked(nodes),
        is_active(nodes, a),
    ensures
        0 <= counterpart(nodes, a) < nodes.len(),
        nodes[counterpart(nodes, a)] is Some,
        nodes[counterpart(nodes, a)].unwrap().ports.len() > 0,
        nodes[counterpart(nodes, a)].unwrap().ports[0] == pointer(a, 0),
{
    assert(mirrored(nodes, a, 0));
}

/// In a linked store with room for two more nodes, the rewrite of an
/// active pair is defined.
pub proof fn lemma_linked_rewrite_defined(nodes: Graph, a: int)
    requires
        linked(nodes),
        nodes.len() < index_limit(),
        is_active(nodes, a),
    ensures
        rewrite_defined(nodes, a),
{
    lemma_linked_pair(nodes, a);
    let b = counterpart(nodes, a);
    if rule_at(nodes, a) is Commute {
        let x = binary_of(nodes, a);
        assert(holds_agent(nodes, x));
        let ports = nodes[x].unwrap().ports;
        let grown = nodes.push(Some(eraser(ports[1]))).push(Some(eraser(ports[2])));
        assert(mirrored(nodes, x, 1));
        assert(mirrored(nodes, x, 2));
        lemma_relinked_ports(grown, x, 1, nodes.len(), 0);
    }
    if rule_at(nodes, a) is Annihilate {
        assert(holds_agent(nodes, b));
        lemma_linked_bounded(nodes);
        lemma_join_bounded(nodes, a, b, 1);
        lemma_join_bounded(joined(nodes, a, b, 1), a, b, 2);
    }
}

/// Joining a pair changes a port of an old slot only by pointing it at the
/// marker that is appended.
pub proof fn lemma_joined_ports(nodes: Graph, a: int, b: int, p: int)
    ensures
        joined(nodes, a, b, p).len() == nodes.len() + 1,
        forall|i: int|
            0 <= i < nodes.len() ==> (#[trigger] joined(nodes, a, b, p)[i] is Some <==> nodes[i]
                is Some),
        forall|i: int|
            0 <= i < nodes.len() && nodes[i] is Some ==> {
                &&& (#[trigger] joined(nodes, a, b, p)[i]).unwrap().kind == nodes[i].unwrap().kind
                &&& joined(nodes, a, b, p)[i].unwrap().ports.len() == nodes[i].unwrap().ports.len()
            },
        forall|i: int, j: int|
            0 <= i < nodes.len() && nodes[i] is Some && 0 <= j < nodes[i].unwrap().ports.len()
                ==> (#[trigger] joined(nodes, a, b, p)[i].unwrap().ports[j]
                == nodes[i].unwrap().ports[j] || joined(nodes, a, b, p)[i].unwrap().ports[j]
                == pointer(nodes.len() as int, 0) || joined(nodes, a, b, p)[i].unwrap().ports[j]
                == pointer(nodes.len() as int, 1)),
        joined(nodes, a, b, p)[nodes.len() as int] is Some,
        !is_agent(joined(nodes, a, b, p)[nodes.len() as int].unwrap().kind),
{
    let q = paired_port(nodes[a].unwrap().kind, p);
    let near = nodes[a].unwrap().ports[p];
    let far = nodes[b].unwrap().ports[q];
    let w = nodes.len();
    let grown = nodes.push(Some(joint(near, far, a, p, b, q)));
    let first = relinked(grown, a, p, w, 0);
    reveal(joined);
    lemma_relinked_ports(grown, a, p, w, 0);
    lemma_relinked_ports(first, b, q, w, 1);
    let after = joined(nodes, a, b, p);
    assert forall|i: int| 0 <= i < nodes.len() && nodes[i] is Some implies {
        &&& (#[trigger] after[i]).unwrap().kind == nodes[i].unwrap().kind
        &&& after[i].unwrap().ports.len() == nodes[i].unwrap().ports.len()
    } by {
        assert(grown[i] is Some);
        assert(first[i] is Some);
    }
    assert forall|i: int, j: int|
        0 <= i < nodes.len() && nodes[i] is Some && 0 <= j < nodes[i].unwrap().ports.len()
        implies (#[trigger] after[i].unwrap().ports[j] == nodes[i].unwrap().ports[j]
        || after[i].unwrap().ports[j] == pointer(nodes.len() as int, 0)
        || after[i].unwrap().ports[j] == pointer(nodes.len() as int, 1)) by {
        assert(grown[i] is Some);
        assert(first[i] is Some);
    }
}

/// A linked store is bounded.
pub proof fn lemma_linked_bounded(nodes: Graph)
    requires
        linked(nodes),
    ensures
        bounded(nodes),
{
    assert forall|n: int, p: int|
        holds_agent(nodes, n) && 0 <= p < nodes[n].unwrap().ports.len() implies (
    #[trigger] nodes[n].unwrap().ports[p] matches PortView::Pointer { index, slot } ==> {
        &&& index < nodes.len()
        &&& nodes[index as int] matches Some(far) ==> slot < far.ports.len()
    }) by {
        assert(mirrored(nodes, n, p));
    }
}

/// In a bounded store, a pair of auxiliary ports of two binary agents can
/// be joined, and the store is bounded afterwards. Every slot that was
/// there keeps its kind and the number of its ports, and the slot that is
/// appended holds a marker.
pub proof fn lemma_join_bounded(nodes: Graph, a: int, b: int, p: int)
    requires
        bounded(nodes),
        nodes.len() <= index_limit(),
        holds_agent(nodes, a),
        holds_agent(nodes, b),
        nodes[a].unwrap().ports.len() == 3,
        nodes[b].unwrap().ports.len() == 3,
        1 <= p <= 2,
    ensures
        join_defined(nodes, a, b, p),
        bounded(joined(nodes, a, b, p)),
        joined(nodes, a, b, p).len() == nodes.len() + 1,
        forall|i: int|
            0 <= i < nodes.len() ==> (#[trigger] joined(nodes, a, b, p)[i] is Some <==> nodes[i]
                is Some),
        forall|i: int|
            0 <= i < nodes.len() && nodes[i] is Some ==> {
                &&& (#[trigger] joined(nodes, a, b, p)[i]).unwrap().kind == nodes[i].unwrap().kind
                &&& joined(nodes, a, b, p)[i].unwrap().ports.len() == nodes[i].unwrap().ports.len()
            },
        joined(nodes, a, b, p)[nodes.len() as int] is Some,
        !is_agent(joined(nodes, a, b, p)[nodes.len() as int].unwrap().kind),
{
    let q = paired_port(nodes[a].unwrap().kind, p);
    let near = nodes[a].unwrap().ports[p];
    let far = nodes[b].unwrap().ports[q];
    let w = nodes.len();
    let grown = nodes.push(Some(joint(near, far, a, p, b, q)));
    let first = relinked(grown, a, p, w, 0);
    let second = relinked(first, b, q, w, 1);
    reveal(joined);
    lemma_relinked_ports(grown, a, p, w, 0);
    lemma_relinked_ports(first, b, q, w, 1);
    assert(bounded(grown)) by {
        assert forall|n: int, k: int|
            holds_agent(grown, n) && 0 <= k < grown[n].unwrap().ports.len() implies (
        #[trigger] grown[n].unwrap().ports[k] matches PortView::Pointer { index, slot } ==> {
            &&& index < grown.len()
            &&& grown[index as int] matches Some(far) ==> slot < far.ports.len()
        }) by {
            assert(holds_agent(nodes, n));
        }
    }
    if !closed_pair(near, far, a, p, b, q) {
        assert(grown[a].unwrap().ports[p] == near);
        assert(bounded(first)) by {
            assert forall|n: int, k: int|
                holds_agent(first, n) && 0 <= k < first[n].unwrap().ports.len() implies (
            #[trigger] first[n].unwrap().ports[k] matches PortView::Pointer { index, slot } ==> {
                &&& index < first.len()
                &&& first[index as int] matches Some(far) ==> slot < far.ports.len()
            }) by {
                assert(holds_agent(grown, n));
            }
        }
        assert(bounded(second)) by {
            assert forall|n: int, k: int|
                holds_agent(second, n) && 0 <= k < second[n].unwrap().ports.len() implies (
            #[trigger] second[n].unwrap().ports[k] matches PortView::Pointer { index, slot } ==> {
                &&& index < second.len()
                &&& second[index as int] matches Some(far) ==> slot < far.ports.len()
            }) by {
                assert(holds_agent(first, n));
            }
        }
        assert(holds_agent(first, b));
        assert(relink_defined(first, b, q));
    }
}

/// A store that is mirrored throughout, in either scope, is linked. So a
/// symmetric store is linked.
pub proof fn lemma_scope_linked(nodes: Graph, markers_too: bool)
    requires
        mirrored_throughout(nodes, markers_too),
    ensures
        linked(nodes),
{
    assert forall|n: int, p: int|
        in_scope(nodes, n, false) && 0 <= p < nodes[n].unwrap().ports.len()
        implies #[trigger] mirrored(nodes, n, p) by {
        assert(in_scope(nodes, n, markers_too));
    }
}

} // verus!
