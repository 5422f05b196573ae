//! Free ports persist: counting how often a name stands on a free port of
//! the store, and that rewriting and compaction keep every count.

use crate::model::{
    binary_of, closed_pair, compacted, counterpart, eraser, eraser_of, first_active, holds_agent,
    is_active, is_binary, joined, joint, paired_port, relinked, rewritten, rule_at, run, step,
    without_pair, Graph, Rule,
};
use crate::net::{named, NodeView, PortView};
use crate::symmetry::{
    lemma_join_keeps_settled, lemma_self_join, others_tracked, own_tracked, same_shape, settled,
};
use crate::wiring::{
    far_end, lemma_joined_ports, lemma_linked_pair, lemma_relinked_ports, linked, mirrored,
};
use vstd::prelude::*;

verus! {

/// One if the port is the free port of that name, else nothing.
pub open spec fn port_count(port: PortView, name: Seq<char>) -> nat {
    if port == named(name) {
        1
    } else {
        0
    }
}

/// How many of the ports are the free port of that name.
pub open spec fn ports_count(ports: Seq<PortView>, name: Seq<char>) -> nat
    decreases ports.len(),
{
    if ports.len() == 0 {
        0
    } else {
        ports_count(ports.drop_last(), name) + port_count(ports.last(), name)
    }
}

/// How many ports of the node in a slot are the free port of that name.
pub open spec fn slot_count(slot: Option<NodeView>, name: Seq<char>) -> nat {
    match slot {
        Some(node) => ports_count(node.ports, name),
        None => 0,
    }
}

/// How many ports of the store are the free port of that name.
pub open spec fn occurrences(nodes: Graph, name: Seq<char>) -> nat
    decreases nodes.len(),
{
    if nodes.len() == 0 {
        0
    } else {
        occurrences(nodes.drop_last(), name) + slot_count(nodes.last(), name)
    }
}

/// Appending a slot adds its count.
pub proof fn lemma_occurrences_push(nodes: Graph, slot: Option<NodeView>, name: Seq<char>)
    ensures
        occurrences(nodes.push(slot), name) == occurrences(nodes, name) + slot_count(slot, name),
{
    assert(nodes.push(slot).drop_last() =~= nodes);
}

/// Overwriting a slot exchanges its count for that of the new content.
pub proof fn lemma_occurrences_update(
    nodes: Graph,
    i: int,
    slot: Option<NodeView>,
    name: Seq<char>,
)
    requires
        0 <= i < nodes.len(),
    ensures
        occurrences(nodes.update(i, slot), name) == occurrences(nodes, name) - slot_count(
            nodes[i],
            name,
        ) + slot_count(slot, name),
    decreases nodes.len(),
{
    if i == nodes.len() - 1 {
        assert(nodes.update(i, slot).drop_last() =~= nodes.drop_last());
    } else {
        lemma_occurrences_update(nodes.drop_last(), i, slot, name);
        assert(nodes.update(i, slot).drop_last() =~= nodes.drop_last().update(i, slot));
    }
}

/// Ports that count alike one by one count alike together.
pub proof fn lemma_ports_count_alike(left: Seq<PortView>, right: Seq<PortView>, name: Seq<char>)
    requires
        left.len() == right.len(),
        forall|j: int|
            0 <= j < left.len() ==> port_count(#[trigger] left[j], name) == port_count(
                right[j],
                name,
            ),
    ensures
        ports_count(left, name) == ports_count(right, name),
    decreases left.len(),
{
    if left.len() > 0 {
        assert forall|j: int| 0 <= j < left.drop_last().len() implies port_count(
            #[trigger] left.drop_last()[j],
            name,
        ) == port_count(right.drop_last()[j], name) by {
            assert(left.drop_last()[j] == left[j]);
            assert(right.drop_last()[j] == right[j]);
        }
        lemma_ports_count_alike(left.drop_last(), right.drop_last(), name);
    }
}

/// The counts of one, two and three ports.
pub proof fn lemma_ports_count_small(ports: Seq<PortView>, name: Seq<char>)
    requires
        ports.len() <= 3,
    ensures
        ports.len() == 0 ==> ports_count(ports, name) == 0,
        ports.len() == 1 ==> ports_count(ports, name) == port_count(ports[0], name),
        ports.len() == 2 ==> ports_count(ports, name) == port_count(ports[0], name) + port_count(
            ports[1],
            name,
        ),
        ports.len() == 3 ==> ports_count(ports, name) == port_count(ports[0], name) + port_count(
            ports[1],
            name,
        ) + port_count(ports[2], name),
    decreases ports.len(),
{
    if ports.len() > 0 {
        lemma_ports_count_small(ports.drop_last(), name);
        assert forall|j: int| 0 <= j < ports.len() - 1 implies ports.drop_last()[j] == ports[j] by {}
        if ports.len() >= 2 {
            assert(ports.drop_last()[0] == ports[0]);
        }
        if ports.len() == 3 {
            assert(ports.drop_last()[1] == ports[1]);
        }
    }
}

/// Stores that count alike slot by slot count alike together.
pub proof fn lemma_occurrences_alike(left: Graph, right: Graph, name: Seq<char>)
    requires
        left.len() == right.len(),
        forall|i: int|
            0 <= i < left.len() ==> slot_count(#[trigger] left[i], name) == slot_count(
                right[i],
                name,
            ),
    ensures
        occurrences(left, name) == occurrences(right, name),
    decreases left.len(),
{
    if left.len() > 0 {
        assert forall|i: int| 0 <= i < left.drop_last().len() implies slot_count(
            #[trigger] left.drop_last()[i],
            name,
        ) == slot_count(right.drop_last()[i], name) by {
            assert(left.drop_last()[i] == left[i]);
            assert(right.drop_last()[i] == right[i]);
        }
        lemma_occurrences_alike(left.drop_last(), right.drop_last(), name);
    }
}

/// Moving the far end of a wire keeps every count, where the port that is
/// overwritten held a pointer.
pub proof fn lemma_relinked_names(
    nodes: Graph,
    from: int,
    port: int,
    to: nat,
    to_port: nat,
    name: Seq<char>,
)
    requires
        far_end(nodes, from, port) matches Some((f, s)) ==> nodes[f].unwrap().ports[s] is Pointer,
    ensures
        occurrences(relinked(nodes, from, port, to, to_port), name) == occurrences(nodes, name),
        forall|i: int|
            0 <= i < nodes.len() ==> slot_count(
                #[trigger] relinked(nodes, from, port, to, to_port)[i],
                name,
            ) == slot_count(nodes[i], name),
{
    let after = relinked(nodes, from, port, to, to_port);
    lemma_relinked_ports(nodes, from, port, to, to_port);
    assert forall|i: int| 0 <= i < nodes.len() implies slot_count(#[trigger] after[i], name)
        == slot_count(nodes[i], name) by {
        if nodes[i] is Some {
            let was = nodes[i].unwrap().ports;
            let now = after[i].unwrap().ports;
            assert forall|j: int| 0 <= j < now.len() implies port_count(#[trigger] now[j], name)
                == port_count(was[j], name) by {}
            lemma_ports_count_alike(now, was, name);
        }
    }
    lemma_occurrences_alike(after, nodes, name);
}

/// Compaction keeps every count: an empty slot holds no port.
pub proof fn lemma_compacted_names(nodes: Graph, name: Seq<char>)
    ensures
        occurrences(compacted(nodes), name) == occurrences(nodes, name),
    decreases nodes.len(),
{
    reveal_with_fuel(Seq::filter, 1);
    if nodes.len() > 0 {
        lemma_compacted_names(nodes.drop_last(), name);
        let keep = |slot: Option<NodeView>| slot is Some;
        if nodes.last() is Some {
            lemma_occurrences_push(nodes.drop_last().filter(keep), nodes.last(), name);
        }
    }
}

/// Erasure keeps every count: an eraser holds no free port that it gives
/// up, its one port being wired.
proof fn lemma_erase_names(nodes: Graph, a: int, name: Seq<char>)
    requires
        linked(nodes),
        is_active(nodes, a),
        rule_at(nodes, a) is Erase,
    ensures
        occurrences(rewritten(nodes, a), name) == occurrences(nodes, name),
{
    lemma_linked_pair(nodes, a);
    let b = counterpart(nodes, a);
    assert(holds_agent(nodes, a));
    assert(holds_agent(nodes, b));
    lemma_ports_count_small(nodes[a].unwrap().ports, name);
    lemma_ports_count_small(nodes[b].unwrap().ports, name);
    lemma_occurrences_update(nodes, a, None, name);
    lemma_occurrences_update(nodes.update(a, None), b, None, name);
}

/// Commutation keeps every count: the two auxiliary ports of the binary
/// agent pass to the two new erasers.
proof fn lemma_commute_names(nodes: Graph, a: int, name: Seq<char>)
    requires
        linked(nodes),
        is_active(nodes, a),
        rule_at(nodes, a) is Commute,
    ensures
        occurrences(rewritten(nodes, a), name) == occurrences(nodes, name),
{
    lemma_linked_pair(nodes, a);
    let x = binary_of(nodes, a);
    let y = eraser_of(nodes, a);
    let len = nodes.len() as int;
    assert(holds_agent(nodes, x));
    assert(holds_agent(nodes, y));
    assert(mirrored(nodes, x, 0));
    assert(mirrored(nodes, x, 1));
    assert(mirrored(nodes, x, 2));
    let ports = nodes[x].unwrap().ports;
    let one = nodes.push(Some(eraser(ports[1])));
    let grown = one.push(Some(eraser(ports[2])));
    let first = relinked(grown, x, 1, nodes.len(), 0);
    let second = relinked(first, x, 2, nodes.len() + 1, 0);
    lemma_occurrences_push(nodes, Some(eraser(ports[1])), name);
    lemma_occurrences_push(one, Some(eraser(ports[2])), name);
    lemma_ports_count_small(eraser(ports[1]).ports, name);
    lemma_ports_count_small(eraser(ports[2]).ports, name);
    lemma_ports_count_small(ports, name);
    lemma_ports_count_small(nodes[y].unwrap().ports, name);
    lemma_relinked_ports(grown, x, 1, nodes.len(), 0);
    assert(far_end(grown, x, 1) matches Some((f, s)) ==> grown[f].unwrap().ports[s] is Pointer);
    lemma_relinked_names(grown, x, 1, nodes.len(), 0, name);
    assert(first[x] is Some);
    assert(far_end(first, x, 2) matches Some((g, t)) ==> first[g].unwrap().ports[t] is Pointer) by {
        if far_end(first, x, 2) is Some {
            let g = far_end(first, x, 2).unwrap().0;
            let t = far_end(first, x, 2).unwrap().1;
            assert(grown[g] is Some);
        }
    }
    lemma_relinked_names(first, x, 2, nodes.len() + 1, 0, name);
    assert(slot_count(second[x], name) == slot_count(first[x], name));
    assert(slot_count(first[x], name) == slot_count(grown[x], name));
    assert(slot_count(second[y], name) == slot_count(first[y], name));
    assert(slot_count(first[y], name) == slot_count(grown[y], name));
    lemma_occurrences_update(second, x, None, name);
    lemma_occurrences_update(second.update(x, None), y, None, name);
}

/// Joining a pair of two agents that face each other adds to each count
/// what the two ports count for, and changes no port's count.
proof fn lemma_joined_names(nodes: Graph, a: int, b: int, k: int, name: Seq<char>)
    requires
        1 <= k <= 2,
        a != b,
        settled(nodes, a, b, k - 1, false),
    ensures
        occurrences(joined(nodes, a, b, k), name) == occurrences(nodes, name) + port_count(
            nodes[a].unwrap().ports[k],
            name,
        ) + port_count(
            nodes[b].unwrap().ports[paired_port(nodes[a].unwrap().kind, k)],
            name,
        ),
        joined(nodes, a, b, k).len() == nodes.len() + 1,
        forall|i: int, j: int|
            0 <= i < nodes.len() && nodes[i] is Some && 0 <= j < nodes[i].unwrap().ports.len()
                ==> port_count(#[trigger] joined(nodes, a, b, k)[i].unwrap().ports[j], name)
                == port_count(nodes[i].unwrap().ports[j], name),
{
    reveal(joined);
    let len = nodes.len() as int;
    let kind = nodes[a].unwrap().kind;
    let q = paired_port(kind, k);
    let near = nodes[a].unwrap().ports[k];
    let far = nodes[b].unwrap().ports[q];
    let marker = Some(joint(near, far, a, k, b, q));
    let grown = nodes.push(marker);
    let after = joined(nodes, a, b, k);
    assert(mirrored(nodes, a, k));
    assert(mirrored(nodes, b, q));
    lemma_occurrences_push(nodes, marker, name);
    lemma_ports_count_small(marker.unwrap().ports, name);
    if !closed_pair(near, far, a, k, b, q) {
        let mid = relinked(grown, a, k, nodes.len(), 0);
        lemma_relinked_ports(grown, a, k, nodes.len(), 0);
        lemma_relinked_ports(mid, b, q, nodes.len(), 1);
        assert(far_end(grown, a, k) matches Some((f, s)) ==> grown[f].unwrap().ports[s] is Pointer);
        lemma_relinked_names(grown, a, k, nodes.len(), 0, name);
        assert(mid[b] is Some);
        assert(mid[b].unwrap().ports[q] == far);
        assert(far_end(mid, b, q) matches Some((g, t)) ==> mid[g].unwrap().ports[t] is Pointer) by {
            if far_end(mid, b, q) is Some {
                let g = far_end(mid, b, q).unwrap().0;
                let t = far_end(mid, b, q).unwrap().1;
                assert(grown[g] is Some);
            }
        }
        lemma_relinked_names(mid, b, q, nodes.len(), 1, name);
        assert forall|i: int, j: int|
            0 <= i < nodes.len() && nodes[i] is Some && 0 <= j < nodes[i].unwrap().ports.len()
            implies port_count(#[trigger] after[i].unwrap().ports[j], name) == port_count(
            nodes[i].unwrap().ports[j],
            name,
        ) by {
            assert(grown[i] is Some);
            assert(mid[i] is Some);
        }
    }
}

/// Annihilation of two agents keeps every count: each auxiliary port
/// passes to the marker of its pair.
proof fn lemma_annihilate_names(nodes: Graph, a: int, name: Seq<char>)
    requires
        linked(nodes),
        is_active(nodes, a),
        rule_at(nodes, a) is Annihilate,
        counterpart(nodes, a) != a,
    ensures
        occurrences(rewritten(nodes, a), name) == occurrences(nodes, name),
{
    lemma_linked_pair(nodes, a);
    let b = counterpart(nodes, a);
    assert(holds_agent(nodes, a));
    assert(holds_agent(nodes, b));
    assert(settled(nodes, a, b, 0, false));
    let kind = nodes[a].unwrap().kind;
    let one = joined(nodes, a, b, 1);
    let two = joined(one, a, b, 2);
    lemma_join_keeps_settled(nodes, a, b, 1, false);
    lemma_joined_names(nodes, a, b, 1, name);
    lemma_join_keeps_settled(one, a, b, 2, false);
    lemma_joined_names(one, a, b, 2, name);
    let q2 = paired_port(kind, 2);
    let na = nodes[a].unwrap().ports;
    let nb = nodes[b].unwrap().ports;
    lemma_joined_ports(nodes, a, b, 1);
    lemma_joined_ports(one, a, b, 2);
    assert(one[a] is Some && one[b] is Some);
    assert(one[a].unwrap().kind == kind);
    assert(two[a] is Some && two[b] is Some);
    assert(holds_agent(two, a) && holds_agent(two, b));
    assert(two[a].unwrap().ports.len() == 3 && two[b].unwrap().ports.len() == 3);
    assert(one[a].unwrap().ports.len() == 3 && one[b].unwrap().ports.len() == 3);
    assert(na.len() == 3 && nb.len() == 3);
    assert forall|j: int| 0 <= j < 3 implies port_count(two[a].unwrap().ports[j], name)
        == port_count(#[trigger] na[j], name) && port_count(two[b].unwrap().ports[j], name)
        == port_count(nb[j], name) by {
        assert(port_count(one[a].unwrap().ports[j], name) == port_count(na[j], name));
        assert(port_count(one[b].unwrap().ports[j], name) == port_count(nb[j], name));
        assert(port_count(two[a].unwrap().ports[j], name) == port_count(
            one[a].unwrap().ports[j],
            name,
        ));
        assert(port_count(two[b].unwrap().ports[j], name) == port_count(
            one[b].unwrap().ports[j],
            name,
        ));
    }
    assert(port_count(one[a].unwrap().ports[2], name) == port_count(na[2], name));
    assert(port_count(one[b].unwrap().ports[q2], name) == port_count(nb[q2], name));
    assert(occurrences(two, name) == occurrences(nodes, name) + port_count(na[1], name)
        + port_count(na[2], name) + port_count(nb[1], name) + port_count(nb[2], name));
    lemma_ports_count_small(two[a].unwrap().ports, name);
    lemma_ports_count_small(two[b].unwrap().ports, name);
    assert(port_count(na[0], name) == 0 && port_count(nb[0], name) == 0);
    assert(port_count(two[a].unwrap().ports[0], name) == port_count(na[0], name));
    assert(port_count(two[a].unwrap().ports[1], name) == port_count(na[1], name));
    assert(port_count(two[a].unwrap().ports[2], name) == port_count(na[2], name));
    assert(port_count(two[b].unwrap().ports[0], name) == port_count(nb[0], name));
    assert(port_count(two[b].unwrap().ports[1], name) == port_count(nb[1], name));
    assert(port_count(two[b].unwrap().ports[2], name) == port_count(nb[2], name));
    assert(slot_count(two[a], name) == port_count(na[1], name) + port_count(na[2], name));
    assert(slot_count(two[b], name) == port_count(nb[1], name) + port_count(nb[2], name));
    lemma_occurrences_update(two, a, None, name);
    lemma_occurrences_update(two.update(a, None), b, None, name);
    assert(two.update(a, None)[b] == two[b]);
    assert(rewritten(nodes, a) == without_pair(two, a, b));
}

/// Joining a pair of auxiliary ports of an agent that faces itself adds to
/// each count what the two ports count for, and changes no port's count.
proof fn lemma_self_joined_names(origin: Graph, nodes: Graph, a: int, k: int, name: Seq<char>)
    requires
        1 <= k <= 2,
        linked(origin),
        is_active(origin, a),
        counterpart(origin, a) == a,
        is_binary(origin[a].unwrap().kind),
        same_shape(origin, nodes),
        others_tracked(origin, nodes, a),
        own_tracked(origin, nodes, a),
    ensures
        occurrences(joined(nodes, a, a, k), name) == occurrences(nodes, name) + port_count(
            nodes[a].unwrap().ports[k],
            name,
        ) + port_count(
            nodes[a].unwrap().ports[paired_port(nodes[a].unwrap().kind, k)],
            name,
        ),
        forall|j: int|
            0 <= j < 3 ==> port_count(#[trigger] joined(nodes, a, a, k)[a].unwrap().ports[j], name)
                == port_count(nodes[a].unwrap().ports[j], name),
{
    reveal(joined);
    let len = nodes.len() as int;
    let kind = nodes[a].unwrap().kind;
    let q = paired_port(kind, k);
    let near = nodes[a].unwrap().ports[k];
    let far = nodes[a].unwrap().ports[q];
    let marker = Some(joint(near, far, a, k, a, q));
    let grown = nodes.push(marker);
    let after = joined(nodes, a, a, k);
    assert(holds_agent(origin, a));
    assert(mirrored(origin, a, 0));
    assert(mirrored(origin, a, 1));
    assert(mirrored(origin, a, 2));
    lemma_occurrences_push(nodes, marker, name);
    lemma_ports_count_small(marker.unwrap().ports, name);
    if !closed_pair(near, far, a, k, a, q) {
        let mid = relinked(grown, a, k, nodes.len(), 0);
        lemma_relinked_ports(grown, a, k, nodes.len(), 0);
        lemma_relinked_ports(mid, a, q, nodes.len(), 1);
        assert(far_end(grown, a, k) matches Some((f, s)) ==> grown[f].unwrap().ports[s] is Pointer);
        lemma_relinked_names(grown, a, k, nodes.len(), 0, name);
        assert(mid[a] is Some);
        assert(far_end(mid, a, q) matches Some((g, t)) ==> mid[g].unwrap().ports[t] is Pointer);
        lemma_relinked_names(mid, a, q, nodes.len(), 1, name);
        assert forall|j: int| 0 <= j < 3 implies port_count(
            #[trigger] after[a].unwrap().ports[j],
            name,
        ) == port_count(nodes[a].unwrap().ports[j], name) by {}
    }
}

/// Annihilation of an agent with itself joins each auxiliary port twice:
/// each count grows by what the two auxiliary ports count for.
proof fn lemma_self_annihilate_names(nodes: Graph, a: int, name: Seq<char>)
    requires
        linked(nodes),
        is_active(nodes, a),
        rule_at(nodes, a) is Annihilate,
        counterpart(nodes, a) == a,
    ensures
        occurrences(rewritten(nodes, a), name) == occurrences(nodes, name) + port_count(
            nodes[a].unwrap().ports[1],
            name,
        ) + port_count(nodes[a].unwrap().ports[2], name),
{
    assert(holds_agent(nodes, a));
    assert(mirrored(nodes, a, 0));
    let kind = nodes[a].unwrap().kind;
    let na = nodes[a].unwrap().ports;
    let one = joined(nodes, a, a, 1);
    let two = joined(one, a, a, 2);
    lemma_self_join(nodes, nodes, a, 1, true);
    lemma_self_joined_names(nodes, nodes, a, 1, name);
    lemma_self_join(nodes, one, a, 2, false);
    lemma_self_joined_names(nodes, one, a, 2, name);
    lemma_joined_ports(nodes, a, a, 1);
    lemma_joined_ports(one, a, a, 2);
    assert(one[a] is Some && two[a] is Some);
    assert(one[a].unwrap().kind == kind);
    assert(na.len() == 3);
    assert(one[a].unwrap().ports.len() == 3 && two[a].unwrap().ports.len() == 3);
    assert forall|j: int| 0 <= j < 3 implies port_count(one[a].unwrap().ports[j], name)
        == port_count(#[trigger] na[j], name) && port_count(two[a].unwrap().ports[j], name)
        == port_count(na[j], name) by {
        assert(port_count(two[a].unwrap().ports[j], name) == port_count(
            one[a].unwrap().ports[j],
            name,
        ));
    }
    assert(port_count(one[a].unwrap().ports[2], name) == port_count(na[2], name));
    assert(port_count(one[a].unwrap().ports[1], name) == port_count(na[1], name));
    assert(occurrences(two, name) == occurrences(nodes, name) + 2 * port_count(na[1], name) + 2
        * port_count(na[2], name));
    lemma_ports_count_small(two[a].unwrap().ports, name);
    assert(port_count(na[0], name) == 0);
    assert(port_count(two[a].unwrap().ports[0], name) == port_count(na[0], name));
    assert(port_count(two[a].unwrap().ports[1], name) == port_count(na[1], name));
    assert(port_count(two[a].unwrap().ports[2], name) == port_count(na[2], name));
    lemma_occurrences_update(two, a, None, name);
    lemma_occurrences_update(two.update(a, None), a, None, name);
    assert(rewritten(nodes, a) == without_pair(two, a, a));
}

/// What a call of the dispatcher adds to the count of a name: nothing, but
/// where an agent is annihilated with itself, which leaves each of its
/// auxiliary ports on two markers.
pub open spec fn doubled(nodes: Graph, name: Seq<char>) -> nat {
    match first_active(nodes) {
        Some(a) => {
            if rule_at(nodes, a) is Annihilate && counterpart(nodes, a) == a {
                port_count(nodes[a].unwrap().ports[1], name) + port_count(
                    nodes[a].unwrap().ports[2],
                    name,
                )
            } else {
                0
            }
        },
        None => 0,
    }
}

/// Every name stands on as many free ports of the store `after` as of the
/// store `before`, plus what a call of the dispatcher on `before` doubles.
pub open spec fn names_kept(before: Graph, after: Graph) -> bool {
    forall|name: Seq<char>|
        (#[trigger] occurrences(after, name)) == occurrences(before, name) + doubled(before, name)
}

/// Free ports persist: a call of the dispatcher on a linked store leaves
/// every name on as many free ports as it stood on, whatever the rewrite.
/// The one addition is made where an agent is annihilated with itself.
pub proof fn lemma_step_names(nodes: Graph, name: Seq<char>)
    requires
        linked(nodes),
    ensures
        occurrences(step(nodes), name) == occurrences(nodes, name) + doubled(nodes, name),
{
    if first_active(nodes) is Some {
        let a = first_active(nodes).unwrap();
        match rule_at(nodes, a) {
            Rule::Commute => lemma_commute_names(nodes, a, name),
            Rule::Annihilate => {
                if counterpart(nodes, a) == a {
                    lemma_self_annihilate_names(nodes, a, name);
                } else {
                    lemma_annihilate_names(nodes, a, name);
                }
            },
            Rule::Erase => lemma_erase_names(nodes, a, name),
            Rule::Stuck => {},
        }
    }
}

/// Through the first `n` calls of the dispatcher the store stays linked,
/// and no agent is annihilated with itself while that name stands on one of
/// its auxiliary ports.
pub open spec fn keeps_name(nodes: Graph, n: nat, name: Seq<char>) -> bool {
    forall|k: nat| k < n ==> linked(#[trigger] run(nodes, k)) && doubled(run(nodes, k), name) == 0
}

/// Free ports persist through a run and the compaction that ends it.
pub proof fn lemma_run_names(nodes: Graph, n: nat, name: Seq<char>)
    requires
        keeps_name(nodes, n, name),
    ensures
        occurrences(run(nodes, n), name) == occurrences(nodes, name),
        occurrences(compacted(run(nodes, n)), name) == occurrences(nodes, name),
    decreases n,
{
    if n > 0 {
        let before = (n - 1) as nat;
        lemma_run_names(nodes, before, name);
        assert(linked(run(nodes, before)));
        assert(doubled(run(nodes, before), name) == 0);
        lemma_step_names(run(nodes, before), name);
    }
    lemma_compacted_names(run(nodes, n), name);
}

} // verus!
