//! What rewriting keeps of wire symmetry: every call of the dispatcher but
//! two kinds keeps a symmetric store symmetric, and those two do break it.
//! Both are rewrites of an agent that is wired to itself.

use crate::model::{
    binary_of, closed_pair, counterpart, eraser, eraser_of, first_active, holds_agent, is_active,
    is_agent, is_binary, joined, joint, paired_port, relinked, rewritten, rule_at, run, step, without_pair,
    Graph, Rule,
};
use crate::net::{pointer, Kind, PortView};
use crate::wiring::{
    annihilates_itself, arity, commutes_looped_agent, far_end, in_scope, joins_twice, leads_away,
    lemma_joined_ports, lemma_linked_pair, lemma_relinked_ports, lemma_scope_linked, linked,
    mirrored, mirrored_throughout, symmetric,
};
use vstd::prelude::*;

verus! {

/// Port `p` of the node in slot `n` is mirrored, or it points at an
/// auxiliary port of one of the two nodes in slots `a` and `b`.
spec fn mirrored_or_leaving(nodes: Graph, n: int, p: int, a: int, b: int) -> bool {
    ||| mirrored(nodes, n, p)
    ||| {
        &&& nodes[n].unwrap().ports[p] matches PortView::Pointer { index, slot }
        &&& (index == a || index == b)
        &&& slot != 0
    }
}

/// Emptying the two slots of an active pair keeps the rest of the store
/// symmetric: the principal ports of the pair point at each other, so no
/// other port names one of them.
proof fn lemma_remove_pair(nodes: Graph, a: int, b: int, markers_too: bool)
    requires
        0 <= a < nodes.len(),
        0 <= b < nodes.len(),
        nodes[a] is Some,
        nodes[b] is Some,
        nodes[a].unwrap().ports.len() > 0,
        nodes[b].unwrap().ports.len() > 0,
        nodes[a].unwrap().ports[0] == pointer(b, 0),
        nodes[b].unwrap().ports[0] == pointer(a, 0),
        forall|n: int| #[trigger]
            holds_agent(nodes, n) && n != a && n != b ==> nodes[n].unwrap().ports.len() == arity(
                nodes[n].unwrap().kind,
            ),
        forall|n: int, p: int|
            in_scope(nodes, n, markers_too) && n != a && n != b && 0 <= p
                < nodes[n].unwrap().ports.len() ==> #[trigger] mirrored_or_leaving(
                nodes,
                n,
                p,
                a,
                b,
            ),
    ensures
        mirrored_throughout(without_pair(nodes, a, b), markers_too),
{
    let rest = without_pair(nodes, a, b);
    assert forall|n: int| #[trigger] holds_agent(rest, n) implies rest[n].unwrap().ports.len()
        == arity(rest[n].unwrap().kind) by {
        assert(holds_agent(nodes, n));
    }
    assert forall|n: int, p: int|
        in_scope(rest, n, markers_too) && 0 <= p < rest[n].unwrap().ports.len()
        implies #[trigger] mirrored(rest, n, p) by {
        assert(mirrored_or_leaving(nodes, n, p, a, b));
    }
}

/// Erasure keeps the store symmetric.
proof fn lemma_erase_keeps_mirrored(nodes: Graph, a: int, markers_too: bool)
    requires
        mirrored_throughout(nodes, markers_too),
        is_active(nodes, a),
        rule_at(nodes, a) is Erase,
    ensures
        mirrored_throughout(rewritten(nodes, a), markers_too),
{
    lemma_scope_linked(nodes, markers_too);
    lemma_linked_pair(nodes, a);
    let b = counterpart(nodes, a);
    assert forall|n: int, p: int|
        in_scope(nodes, n, markers_too) && n != a && n != b && 0 <= p
            < nodes[n].unwrap().ports.len() implies #[trigger] mirrored_or_leaving(
        nodes,
        n,
        p,
        a,
        b,
    ) by {}
    lemma_remove_pair(nodes, a, b, markers_too);
}

/// Port `p` of the node in slot `n` is one of those joined by the first
/// `done` steps of the annihilation of the agents in slots `a` and `b`.
pub open spec fn spent(kind: Kind, a: int, b: int, done: int, n: int, p: int) -> bool {
    ||| done >= 1 && ((n == a && p == 1) || (n == b && p == paired_port(kind, 1)))
    ||| done >= 2 && ((n == a && p == 2) || (n == b && p == paired_port(kind, 2)))
}

/// The store in the middle of the annihilation of the agents in slots `a`
/// and `b`, after `done` pairs were joined: both agents are there and face
/// each other, and every port in scope is mirrored but those that were
/// joined already.
pub open spec fn settled(nodes: Graph, a: int, b: int, done: int, markers_too: bool) -> bool {
    &&& holds_agent(nodes, a)
    &&& holds_agent(nodes, b)
    &&& is_binary(nodes[a].unwrap().kind)
    &&& nodes[b].unwrap().kind == nodes[a].unwrap().kind
    &&& nodes[a].unwrap().ports[0] == pointer(b, 0)
    &&& nodes[b].unwrap().ports[0] == pointer(a, 0)
    &&& forall|n: int| #[trigger]
        holds_agent(nodes, n) ==> nodes[n].unwrap().ports.len() == arity(nodes[n].unwrap().kind)
    &&& forall|n: int, p: int|
        in_scope(nodes, n, markers_too) && 0 <= p < nodes[n].unwrap().ports.len() && !spent(
            nodes[a].unwrap().kind,
            a,
            b,
            done,
            n,
            p,
        ) ==> #[trigger] mirrored(nodes, n, p)
}

/// Joining the next pair of auxiliary ports of two agents that face each
/// other keeps every other port mirrored: the far end of each port joined
/// and the port of the `WIRE` that records it point at each other.
#[verifier::spinoff_prover]
#[verifier::rlimit(50)]
pub proof fn lemma_join_keeps_settled(nodes: Graph, a: int, b: int, k: int, markers_too: bool)
    requires
        1 <= k <= 2,
        a != b,
        settled(nodes, a, b, k - 1, markers_too),
    ensures
        settled(joined(nodes, a, b, k), a, b, k, markers_too),
{
    let len = nodes.len() as int;
    let kind = nodes[a].unwrap().kind;
    let q = paired_port(kind, k);
    let near = nodes[a].unwrap().ports[k];
    let far = nodes[b].unwrap().ports[q];
    let grown = nodes.push(Some(joint(near, far, a, k, b, q)));
    let after = joined(nodes, a, b, k);
    reveal(joined);
    assert(mirrored(nodes, a, 0));
    assert(mirrored(nodes, b, 0));
    assert(mirrored(nodes, a, k));
    assert(mirrored(nodes, b, q));
    if closed_pair(near, far, a, k, b, q) {
        assert forall|n: int| #[trigger] holds_agent(after, n) implies after[n].unwrap().ports.len()
            == arity(after[n].unwrap().kind) by {
            assert(holds_agent(nodes, n));
        }
        assert forall|n: int, p: int|
            in_scope(after, n, markers_too) && 0 <= p < after[n].unwrap().ports.len() && !spent(
                kind,
                a,
                b,
                k,
                n,
                p,
            ) implies #[trigger] mirrored(after, n, p) by {
            assert(mirrored(nodes, n, p));
        }
    } else {
        let first = relinked(grown, a, k, nodes.len(), 0);
        lemma_relinked_ports(grown, a, k, nodes.len(), 0);
        lemma_relinked_ports(first, b, q, nodes.len(), 1);
        let one = far_end(grown, a, k);
        let two = far_end(first, b, q);
        assert(one matches Some((f, s)) ==> {
            &&& 0 <= f < len
            &&& nodes[f] is Some
            &&& 0 <= s < nodes[f].unwrap().ports.len()
            &&& nodes[f].unwrap().ports[s] == pointer(a, k)
            &&& near == pointer(f, s)
            &&& (f, s) != (a, 0int)
            &&& (f, s) != (b, 0int)
            &&& (f, s) != (b, q)
        });
        assert(first[b] is Some);
        assert(first[b].unwrap().ports[q] == far);
        assert(two matches Some((g, t)) ==> {
            &&& 0 <= g < len
            &&& nodes[g] is Some
            &&& 0 <= t < nodes[g].unwrap().ports.len()
            &&& nodes[g].unwrap().ports[t] == pointer(b, q)
            &&& far == pointer(g, t)
            &&& (g, t) != (a, 0int)
            &&& (g, t) != (b, 0int)
            &&& (g, t) != (a, k)
            &&& one != two
        });
        assert forall|i: int, j: int|
            0 <= i < len + 1 && grown[i] is Some && 0 <= j < grown[i].unwrap().ports.len() implies {
            &&& after[i] is Some
            &&& after[i].unwrap().kind == grown[i].unwrap().kind
            &&& after[i].unwrap().ports.len() == grown[i].unwrap().ports.len()
            &&& #[trigger] after[i].unwrap().ports[j] == if one == Some((i, j)) {
                pointer(len, 0)
            } else if two == Some((i, j)) {
                pointer(len, 1)
            } else {
                grown[i].unwrap().ports[j]
            }
        } by {
            assert(first[i] is Some);
        }
        assert forall|i: int| 0 <= i < len + 1 implies (#[trigger] after[i] is Some <==> grown[i]
            is Some) by {
            assert(first[i] is Some <==> grown[i] is Some);
        }
        assert forall|n: int| #[trigger] holds_agent(after, n) implies after[n].unwrap().ports.len()
            == arity(after[n].unwrap().kind) by {
            assert(grown[n] is Some);
            assert(first[n] is Some);
            assert(holds_agent(nodes, n));
        }
        assert forall|n: int, p: int|
            in_scope(after, n, markers_too) && 0 <= p < after[n].unwrap().ports.len() && !spent(
                kind,
                a,
                b,
                k,
                n,
                p,
            ) implies #[trigger] mirrored(after, n, p) by {
            assert(grown[n] is Some);
            assert(first[n] is Some);
            if n < len {
                assert(in_scope(nodes, n, markers_too));
                assert(mirrored(nodes, n, p));
            }
        }
    }
}

/// The store in the middle of the annihilation of an agent with itself
/// has the slots of the store it started from, each with its kind and the
/// number of its ports, and behind them only markers.
pub open spec fn same_shape(origin: Graph, nodes: Graph) -> bool {
    &&& nodes.len() >= origin.len()
    &&& forall|i: int|
        0 <= i < origin.len() ==> (#[trigger] nodes[i] is Some <==> origin[i] is Some)
    &&& forall|i: int|
        0 <= i < origin.len() && origin[i] is Some ==> {
            &&& (#[trigger] nodes[i]).unwrap().kind == origin[i].unwrap().kind
            &&& nodes[i].unwrap().ports.len() == origin[i].unwrap().ports.len()
        }
    &&& forall|i: int|
        origin.len() <= i < nodes.len() ==> (#[trigger] nodes[i]) is Some && !is_agent(
            nodes[i].unwrap().kind,
        )
}

/// Port `j` of the node in slot `i` points at a port of a marker made
/// since, and that port points back.
pub open spec fn rewired(origin: Graph, nodes: Graph, i: int, j: int) -> bool {
    &&& nodes[i].unwrap().ports[j] matches PortView::Pointer { index, slot }
    &&& origin.len() <= index < nodes.len()
    &&& slot < nodes[index as int].unwrap().ports.len()
    &&& nodes[index as int].unwrap().ports[slot as int] == pointer(i, j)
}

/// The port is a pointer to some port of the node in slot `a`.
pub open spec fn leads_to(port: PortView, a: int) -> bool {
    port matches PortView::Pointer { index, .. } && index == a
}

/// Every port of every node but the agent in slot `a` is as it was, or it
/// was wired to the agent and is now rewired.
pub open spec fn others_tracked(origin: Graph, nodes: Graph, a: int) -> bool {
    forall|i: int, j: int|
        0 <= i < origin.len() && i != a && origin[i] is Some && 0 <= j
            < origin[i].unwrap().ports.len() ==> (#[trigger] nodes[i].unwrap().ports[j])
            == origin[i].unwrap().ports[j] || (rewired(origin, nodes, i, j) && leads_to(
            origin[i].unwrap().ports[j],
            a,
        ))
}

/// Every port of the agent in slot `a` is as it was, or it is rewired.
pub open spec fn own_tracked(origin: Graph, nodes: Graph, a: int) -> bool {
    forall|k: int|
        0 <= k < 3 ==> (#[trigger] nodes[a].unwrap().ports[k]) == origin[a].unwrap().ports[k]
            || rewired(origin, nodes, a, k)
}

/// Joining a pair of auxiliary ports of an agent that faces itself keeps
/// track of every other node.
pub proof fn lemma_self_join(origin: Graph, nodes: Graph, a: int, k: int, first: bool)
    requires
        1 <= k <= 2,
        linked(origin),
        is_active(origin, a),
        counterpart(origin, a) == a,
        is_binary(origin[a].unwrap().kind),
        same_shape(origin, nodes),
        others_tracked(origin, nodes, a),
        own_tracked(origin, nodes, a),
        first ==> nodes == origin,
    ensures
        same_shape(origin, joined(nodes, a, a, k)),
        others_tracked(origin, joined(nodes, a, a, k), a),
        first ==> own_tracked(origin, joined(nodes, a, a, k), a),
{
    reveal(joined);
    let len = nodes.len() as int;
    let kind = nodes[a].unwrap().kind;
    let q = paired_port(kind, k);
    let near = nodes[a].unwrap().ports[k];
    let far = nodes[a].unwrap().ports[q];
    let grown = nodes.push(Some(joint(near, far, a, k, a, q)));
    let after = joined(nodes, a, a, k);
    assert(holds_agent(origin, a));
    assert(mirrored(origin, a, 0));
    assert(mirrored(origin, a, 1));
    assert(mirrored(origin, a, 2));
    if closed_pair(near, far, a, k, a, q) {
        assert forall|i: int, j: int|
            0 <= i < origin.len() && i != a && origin[i] is Some && 0 <= j
                < origin[i].unwrap().ports.len() implies (#[trigger] after[i].unwrap().ports[j])
            == origin[i].unwrap().ports[j] || (rewired(origin, after, i, j) && leads_to(
            origin[i].unwrap().ports[j],
            a,
        )) by {}
        if first {
            assert forall|e: int| 0 <= e < 3 implies (#[trigger] after[a].unwrap().ports[e])
                == origin[a].unwrap().ports[e] || rewired(origin, after, a, e) by {}
        }
    } else {
        let mid = relinked(grown, a, k, nodes.len(), 0);
        lemma_relinked_ports(grown, a, k, nodes.len(), 0);
        lemma_relinked_ports(mid, a, q, nodes.len(), 1);
        let one = far_end(grown, a, k);
        let two = far_end(mid, a, q);
        assert(mid[a] is Some);
        assert forall|i: int, j: int|
            0 <= i < len + 1 && grown[i] is Some && 0 <= j < grown[i].unwrap().ports.len() implies {
            &&& after[i] is Some
            &&& after[i].unwrap().kind == grown[i].unwrap().kind
            &&& after[i].unwrap().ports.len() == grown[i].unwrap().ports.len()
            &&& #[trigger] after[i].unwrap().ports[j] == if two == Some((i, j)) {
                pointer(len, 1)
            } else if one == Some((i, j)) {
                pointer(len, 0)
            } else {
                grown[i].unwrap().ports[j]
            }
        } by {
            assert(mid[i] is Some);
        }
        assert forall|i: int| 0 <= i < len + 1 implies (#[trigger] after[i] is Some <==> grown[i]
            is Some) by {
            assert(mid[i] is Some <==> grown[i] is Some);
        }
        assert forall|i: int| 0 <= i < origin.len() && origin[i] is Some implies {
            &&& (#[trigger] after[i]).unwrap().kind == origin[i].unwrap().kind
            &&& after[i].unwrap().ports.len() == origin[i].unwrap().ports.len()
        } by {
            assert(nodes[i] is Some);
            assert(grown[i] is Some);
            assert(mid[i] is Some);
        }
        assert forall|i: int, j: int|
            0 <= i < origin.len() && i != a && origin[i] is Some && 0 <= j
                < origin[i].unwrap().ports.len() implies (#[trigger] after[i].unwrap().ports[j])
            == origin[i].unwrap().ports[j] || (rewired(origin, after, i, j) && leads_to(
            origin[i].unwrap().ports[j],
            a,
        )) by {
            assert(nodes[i] is Some);
            assert(grown[i] is Some);
            assert(nodes[i].unwrap().ports[j] == origin[i].unwrap().ports[j] || rewired(
                origin,
                nodes,
                i,
                j,
            ));
            assert(after[len].unwrap().ports.len() == 2);
        }
        if first {
            assert forall|e: int| 0 <= e < 3 implies (#[trigger] after[a].unwrap().ports[e])
                == origin[a].unwrap().ports[e] || rewired(origin, after, a, e) by {}
        }
    }
}

/// Annihilation of an agent with itself keeps the agents symmetric.
proof fn lemma_self_annihilate_keeps_linked(nodes: Graph, a: int)
    requires
        linked(nodes),
        is_active(nodes, a),
        rule_at(nodes, a) is Annihilate,
        counterpart(nodes, a) == a,
    ensures
        linked(rewritten(nodes, a)),
{
    assert(holds_agent(nodes, a));
    assert(mirrored(nodes, a, 0));
    let one = joined(nodes, a, a, 1);
    let two = joined(one, a, a, 2);
    lemma_self_join(nodes, nodes, a, 1, true);
    lemma_self_join(nodes, one, a, 2, false);
    let rest = without_pair(two, a, a);
    assert forall|n: int| #[trigger] holds_agent(rest, n) implies rest[n].unwrap().ports.len()
        == arity(rest[n].unwrap().kind) by {
        assert(two[n] is Some);
        assert(holds_agent(nodes, n));
    }
    assert forall|n: int, p: int|
        in_scope(rest, n, false) && 0 <= p < rest[n].unwrap().ports.len()
        implies #[trigger] mirrored(rest, n, p) by {
        assert(two[n] is Some);
        assert(holds_agent(nodes, n));
        assert(mirrored(nodes, n, p));
        let now = two[n].unwrap().ports[p];
        if now == nodes[n].unwrap().ports[p] {
            if now is Pointer {
                let m = now->index as int;
                let q = now->slot as int;
                if m != a && nodes[m] is Some {
                    assert(two[m] is Some);
                }
            }
        }
    }
}

/// Annihilation of an agent with itself keeps all nodes symmetric where
/// no auxiliary port of the agent is joined twice.
proof fn lemma_self_annihilate_keeps_symmetric(nodes: Graph, a: int)
    requires
        symmetric(nodes),
        is_active(nodes, a),
        rule_at(nodes, a) is Annihilate,
        counterpart(nodes, a) == a,
        !joins_twice(nodes, a),
    ensures
        symmetric(rewritten(nodes, a)),
{
    lemma_scope_linked(nodes, true);
    lemma_self_annihilate_keeps_linked(nodes, a);
    reveal(joined);
    let len = nodes.len() as int;
    let kind = nodes[a].unwrap().kind;
    assert(holds_agent(nodes, a));
    assert(mirrored(nodes, a, 0));
    assert(mirrored(nodes, a, 1));
    assert(mirrored(nodes, a, 2));
    let q1 = paired_port(kind, 1);
    let q2 = paired_port(kind, 2);
    let ports = nodes[a].unwrap().ports;
    let grown1 = nodes.push(Some(joint(ports[1], ports[q1], a, 1, a, q1)));
    let mid1 = relinked(grown1, a, 1, nodes.len(), 0);
    lemma_relinked_ports(grown1, a, 1, nodes.len(), 0);
    lemma_relinked_ports(mid1, a, q1, nodes.len(), 1);
    let one = joined(nodes, a, a, 1);
    lemma_joined_ports(nodes, a, a, 1);
    let again = one[a].unwrap().ports;
    let grown2 = one.push(Some(joint(again[2], again[q2], a, 2, a, q2)));
    let mid2 = relinked(grown2, a, 2, one.len(), 0);
    lemma_relinked_ports(grown2, a, 2, one.len(), 0);
    lemma_relinked_ports(mid2, a, q2, one.len(), 1);
    let two = joined(one, a, a, 2);
    lemma_joined_ports(one, a, a, 2);
    let rest = without_pair(two, a, a);
    // No wire leads away from the agent, so no other old node is touched.
    assert forall|i: int| 0 <= i < len && i != a implies #[trigger] two[i] == nodes[i] by {
        assert(mid1[i] == grown1[i]);
        assert(one[i] == mid1[i]);
        assert(mid2[i] == grown2[i]);
        assert(two[i] == mid2[i]);
    }
    assert forall|n: int, p: int|
        in_scope(rest, n, true) && 0 <= p < rest[n].unwrap().ports.len()
        implies #[trigger] mirrored(rest, n, p) by {
        if n < len {
            assert(in_scope(nodes, n, true));
            assert(mirrored(nodes, n, p));
        }
    }
}

/// The annihilation of an agent with itself that joins an auxiliary port
/// twice does break wire symmetry among all nodes: the far end of that
/// port is pointed at a `WIRE` twice, and the first port that recorded it
/// is not pointed back at.
pub proof fn lemma_self_annihilation_breaks_symmetric(nodes: Graph)
    requires
        symmetric(nodes),
        annihilates_itself(nodes),
    ensures
        !symmetric(step(nodes)),
{
    let a = first_active(nodes).unwrap();
    lemma_scope_linked(nodes, true);
    reveal(joined);
    let len = nodes.len() as int;
    let kind = nodes[a].unwrap().kind;
    assert(holds_agent(nodes, a));
    assert(mirrored(nodes, a, 0));
    assert(mirrored(nodes, a, 1));
    assert(mirrored(nodes, a, 2));
    let q1 = paired_port(kind, 1);
    let q2 = paired_port(kind, 2);
    let ports = nodes[a].unwrap().ports;
    let grown1 = nodes.push(Some(joint(ports[1], ports[q1], a, 1, a, q1)));
    let mid1 = relinked(grown1, a, 1, nodes.len(), 0);
    lemma_relinked_ports(grown1, a, 1, nodes.len(), 0);
    lemma_relinked_ports(mid1, a, q1, nodes.len(), 1);
    let one = joined(nodes, a, a, 1);
    let again = one[a].unwrap().ports;
    let grown2 = one.push(Some(joint(again[2], again[q2], a, 2, a, q2)));
    let mid2 = relinked(grown2, a, 2, one.len(), 0);
    lemma_relinked_ports(grown2, a, 2, one.len(), 0);
    lemma_relinked_ports(mid2, a, q2, one.len(), 1);
    let two = joined(one, a, a, 2);
    let rest = step(nodes);
    assert(rest == without_pair(two, a, a));
    let live = if leads_away(nodes, a, 1) { 1int } else { 2int };
    let marker = if kind == Kind::CON { len } else { len + live - 1 };
    let port = if kind == Kind::CON { live - 1 } else { 0int };
    assert(one[len] is Some);
    assert(two[len] is Some);
    assert(two[len + 1] is Some);
    assert(in_scope(rest, marker, true));
    assert(!mirrored(rest, marker, port));
}

/// Annihilation of two agents keeps the store symmetric.
proof fn lemma_annihilate_keeps_mirrored(nodes: Graph, a: int, markers_too: bool)
    requires
        mirrored_throughout(nodes, markers_too),
        is_active(nodes, a),
        rule_at(nodes, a) is Annihilate,
        counterpart(nodes, a) != a,
    ensures
        mirrored_throughout(rewritten(nodes, a), markers_too),
{
    lemma_scope_linked(nodes, markers_too);
    lemma_linked_pair(nodes, a);
    let b = counterpart(nodes, a);
    assert(holds_agent(nodes, b));
    assert(settled(nodes, a, b, 0, markers_too));
    lemma_join_keeps_settled(nodes, a, b, 1, markers_too);
    let one = joined(nodes, a, b, 1);
    lemma_join_keeps_settled(one, a, b, 2, markers_too);
    let two = joined(one, a, b, 2);
    assert forall|n: int, p: int|
        in_scope(two, n, markers_too) && n != a && n != b && 0 <= p < two[n].unwrap().ports.len()
        implies #[trigger] mirrored_or_leaving(two, n, p, a, b) by {
        assert(mirrored(two, n, p));
    }
    lemma_remove_pair(two, a, b, markers_too);
}

/// Commutation keeps the store symmetric, unless the two auxiliary ports of
/// the binary agent are wired to each other.
proof fn lemma_commute_keeps_mirrored(nodes: Graph, a: int, markers_too: bool)
    requires
        mirrored_throughout(nodes, markers_too),
        is_active(nodes, a),
        rule_at(nodes, a) is Commute,
        nodes[binary_of(nodes, a)].unwrap().ports[1] != pointer(binary_of(nodes, a), 2),
    ensures
        mirrored_throughout(rewritten(nodes, a), markers_too),
{
    lemma_scope_linked(nodes, markers_too);
    lemma_linked_pair(nodes, a);
    let x = binary_of(nodes, a);
    let y = eraser_of(nodes, a);
    let len = nodes.len() as int;
    assert(holds_agent(nodes, x));
    assert(holds_agent(nodes, y));
    let ports = nodes[x].unwrap().ports;
    let grown = nodes.push(Some(eraser(ports[1]))).push(Some(eraser(ports[2])));
    let first = relinked(grown, x, 1, nodes.len(), 0);
    let second = relinked(first, x, 2, nodes.len() + 1, 0);
    lemma_relinked_ports(grown, x, 1, nodes.len(), 0);
    lemma_relinked_ports(first, x, 2, nodes.len() + 1, 0);
    assert(mirrored(nodes, x, 1));
    assert(mirrored(nodes, x, 2));
    let one = far_end(grown, x, 1);
    let two = far_end(first, x, 2);
    // What the first wire leads to.
    assert(one matches Some((f, s)) ==> {
        &&& 0 <= f < len
        &&& nodes[f] is Some
        &&& 0 <= s < nodes[f].unwrap().ports.len()
        &&& nodes[f].unwrap().ports[s] == pointer(x, 1)
        &&& ports[1] == pointer(f, s)
        &&& f != y
        &&& (f, s) != (x, 0int)
        &&& (f, s) != (x, 2int)
    });
    // What the second wire leads to.
    assert(two matches Some((g, t)) ==> {
        &&& 0 <= g < len
        &&& nodes[g] is Some
        &&& 0 <= t < nodes[g].unwrap().ports.len()
        &&& nodes[g].unwrap().ports[t] == pointer(x, 2)
        &&& ports[2] == pointer(g, t)
        &&& g != y
        &&& (g, t) != (x, 0int)
        &&& (g, t) != (x, 1int)
        &&& one != two
    });
    // Every port of the store after both wires are moved.
    assert forall|i: int, q: int|
        0 <= i < len + 2 && grown[i] is Some && 0 <= q < grown[i].unwrap().ports.len() implies {
        &&& second[i] is Some
        &&& second[i].unwrap().kind == grown[i].unwrap().kind
        &&& second[i].unwrap().ports.len() == grown[i].unwrap().ports.len()
        &&& #[trigger] second[i].unwrap().ports[q] == if one == Some((i, q)) {
            pointer(len, 0)
        } else if two == Some((i, q)) {
            pointer(len + 1, 0)
        } else {
            grown[i].unwrap().ports[q]
        }
    } by {}
    assert forall|i: int| 0 <= i < len + 2 implies (#[trigger] second[i] is Some <==> grown[i]
        is Some) by {}
    assert forall|n: int| #[trigger]
        holds_agent(second, n) && n != x && n != y implies second[n].unwrap().ports.len() == arity(
        second[n].unwrap().kind,
    ) by {
        if n < len {
            assert(holds_agent(nodes, n));
        }
    }
    assert forall|n: int, p: int|
        in_scope(second, n, markers_too) && n != x && n != y && 0 <= p
            < second[n].unwrap().ports.len() implies #[trigger] mirrored_or_leaving(
        second,
        n,
        p,
        x,
        y,
    ) by {
        if n < len {
            assert(mirrored(nodes, n, p));
        }
    }
    lemma_remove_pair(second, x, y, markers_too);
}

/// A call of the dispatcher keeps the store symmetric, but for the
/// rewrites named.
proof fn lemma_step_keeps_mirrored(nodes: Graph, markers_too: bool)
    requires
        mirrored_throughout(nodes, markers_too),
        !commutes_looped_agent(nodes),
        markers_too ==> !annihilates_itself(nodes),
    ensures
        mirrored_throughout(step(nodes), markers_too),
{
    if first_active(nodes) is Some {
        let a = first_active(nodes).unwrap();
        match rule_at(nodes, a) {
            Rule::Commute => lemma_commute_keeps_mirrored(nodes, a, markers_too),
            Rule::Annihilate => {
                if counterpart(nodes, a) != a {
                    lemma_annihilate_keeps_mirrored(nodes, a, markers_too);
                } else if markers_too {
                    lemma_self_annihilate_keeps_symmetric(nodes, a);
                } else {
                    lemma_self_annihilate_keeps_linked(nodes, a);
                }
            },
            Rule::Erase => lemma_erase_keeps_mirrored(nodes, a, markers_too),
            Rule::Stuck => {},
        }
    }
}

/// Wire symmetry outlasts a rewrite: after one call of the dispatcher on a
/// linked store, every port of every agent that is still there is again
/// mirrored, the ports of the nodes made by the call among them. The one
/// rewrite left out is the commutation of a binary agent whose two
/// auxiliary ports are wired to each other.
pub proof fn lemma_step_keeps_linked(nodes: Graph)
    requires
        linked(nodes),
        !commutes_looped_agent(nodes),
    ensures
        linked(step(nodes)),
{
    lemma_step_keeps_mirrored(nodes, false);
}

/// Wire symmetry among all nodes outlasts a rewrite: after one call of the
/// dispatcher on a symmetric store, every port of every node that is still
/// there is again mirrored, the ports of the markers made by the call among
/// them. Two rewrites are left out: the commutation of a binary agent whose
/// two auxiliary ports are wired to each other, and the annihilation of an
/// agent with itself that joins one of its auxiliary ports twice.
pub proof fn lemma_step_keeps_symmetric(nodes: Graph)
    requires
        symmetric(nodes),
        !commutes_looped_agent(nodes),
        !annihilates_itself(nodes),
    ensures
        symmetric(step(nodes)),
{
    lemma_step_keeps_mirrored(nodes, true);
}

/// Wire symmetry outlasts every sequence of calls of the dispatcher in
/// which no call commutes a binary agent whose two auxiliary ports are
/// wired to each other.
pub proof fn lemma_run_keeps_linked(nodes: Graph, n: nat)
    requires
        linked(nodes),
        forall|k: nat| k < n ==> !commutes_looped_agent(#[trigger] run(nodes, k)),
    ensures
        linked(run(nodes, n)),
    decreases n,
{
    if n > 0 {
        let before = (n - 1) as nat;
        lemma_run_keeps_linked(nodes, before);
        lemma_step_keeps_linked(run(nodes, before));
    }
}

/// Wire symmetry among all nodes outlasts every sequence of calls of the
/// dispatcher in which no call makes one of the two rewrites that break it.
pub proof fn lemma_run_keeps_symmetric(nodes: Graph, n: nat)
    requires
        symmetric(nodes),
        forall|k: nat| k < n ==> !commutes_looped_agent(#[trigger] run(nodes, k)),
        forall|k: nat| k < n ==> !annihilates_itself(#[trigger] run(nodes, k)),
    ensures
        symmetric(run(nodes, n)),
    decreases n,
{
    if n > 0 {
        let before = (n - 1) as nat;
        lemma_run_keeps_symmetric(nodes, before);
        lemma_step_keeps_symmetric(run(nodes, before));
    }
}

/// The commutation of a binary agent whose two auxiliary ports are wired
/// to each other does break wire symmetry: the first eraser that it makes
/// points at the second, which does not point back.
pub proof fn lemma_looped_commute_breaks_linked(nodes: Graph)
    requires
        linked(nodes),
        commutes_looped_agent(nodes),
    ensures
        !linked(step(nodes)),
{
    let a = first_active(nodes).unwrap();
    lemma_linked_pair(nodes, a);
    let x = binary_of(nodes, a);
    assert(holds_agent(nodes, x));
    assert(mirrored(nodes, x, 1));
    let ports = nodes[x].unwrap().ports;
    let grown = nodes.push(Some(eraser(ports[1]))).push(Some(eraser(ports[2])));
    let first = relinked(grown, x, 1, nodes.len(), 0);
    lemma_relinked_ports(grown, x, 1, nodes.len(), 0);
    lemma_relinked_ports(first, x, 2, nodes.len() + 1, 0);
    assert(!mirrored(step(nodes), nodes.len() as int, 0));
}

} // verus!
