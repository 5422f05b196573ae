//! Counting the nodes of a store, and the two measures built on the counts:
//! one that every rewrite lowers, which is why the driver comes to an end,
//! and one that no rewrite raises, which bounds how far the store grows.

use crate::model::{
    counterpart, eraser, first_active, index_limit, is_agent, is_binary, joined, joint,
    paired_port, reducible, relinked, rule_at, run, run_defined, step, step_defined, without_pair,
    Graph, Rule,
};
use crate::net::{Kind, NodeView};
use vstd::prelude::*;

verus! {

/// What one slot counts for: one if it holds an agent (a binary agent,
/// where only those are counted), else nothing.
pub open spec fn slot_weight(slot: Option<NodeView>, binary_only: bool) -> nat {
    if slot matches Some(node) && (if binary_only {
        is_binary(node.kind)
    } else {
        is_agent(node.kind)
    }) {
        1
    } else {
        0
    }
}

/// The number of slots that hold an agent, or a binary agent where only
/// those are counted.
pub open spec fn tally(nodes: Graph, binary_only: bool) -> nat
    decreases nodes.len(),
{
    if nodes.len() == 0 {
        0
    } else {
        tally(nodes.drop_last(), binary_only) + slot_weight(nodes.last(), binary_only)
    }
}

/// The number of agents in the store.
pub open spec fn agents(nodes: Graph) -> nat {
    tally(nodes, false)
}

/// The number of binary agents in the store.
pub open spec fn binaries(nodes: Graph) -> nat {
    tally(nodes, true)
}

/// The agents in the store plus the slots that the store can still grow
/// by. Every rewrite lowers it: a rewrite that appends two nodes uses up two
/// slots and leaves no more agents than there were, and a rewrite that
/// appends nothing removes an agent.
pub open spec fn budget(nodes: Graph) -> int {
    agents(nodes) + index_limit() - nodes.len()
}

/// The length that the store can grow to: each rewrite that appends two
/// nodes removes a binary agent.
pub open spec fn reach(nodes: Graph) -> nat {
    nodes.len() + 2 * binaries(nodes)
}

/// Appending a slot adds its weight.
pub proof fn lemma_tally_push(nodes: Graph, slot: Option<NodeView>, binary_only: bool)
    ensures
        tally(nodes.push(slot), binary_only) == tally(nodes, binary_only) + slot_weight(
            slot,
            binary_only,
        ),
{
    assert(nodes.push(slot).drop_last() =~= nodes);
}

/// Overwriting a slot exchanges its weight for that of the new content.
pub proof fn lemma_tally_update(nodes: Graph, i: int, slot: Option<NodeView>, binary_only: bool)
    requires
        0 <= i < nodes.len(),
    ensures
        tally(nodes.update(i, slot), binary_only) == tally(nodes, binary_only) - slot_weight(
            nodes[i],
            binary_only,
        ) + slot_weight(slot, binary_only),
    decreases nodes.len(),
{
    if i == nodes.len() - 1 {
        assert(nodes.update(i, slot).drop_last() =~= nodes.drop_last());
    } else {
        lemma_tally_update(nodes.drop_last(), i, slot, binary_only);
        assert(nodes.update(i, slot).drop_last() =~= nodes.drop_last().update(i, slot));
    }
}

/// A store counts no more nodes than it has slots, and at least one where
/// a slot has weight.
pub proof fn lemma_tally_bounds(nodes: Graph, binary_only: bool)
    ensures
        tally(nodes, binary_only) <= nodes.len(),
        forall|i: int|
            0 <= i < nodes.len() && slot_weight(#[trigger] nodes[i], binary_only) == 1 ==> tally(
                nodes,
                binary_only,
            ) >= 1,
    decreases nodes.len(),
{
    if nodes.len() > 0 {
        lemma_tally_bounds(nodes.drop_last(), binary_only);
        assert forall|i: int|
            0 <= i < nodes.len() && slot_weight(#[trigger] nodes[i], binary_only) == 1 implies tally(
            nodes,
            binary_only,
        ) >= 1 by {
            if i < nodes.len() - 1 {
                assert(nodes.drop_last()[i] == nodes[i]);
            }
        }
    }
}

/// Moving the far end of a wire keeps every slot's kind, and so the length
/// of the store and its counts.
pub proof fn lemma_relinked_tally(
    nodes: Graph,
    from: int,
    port: int,
    to: nat,
    to_port: nat,
    binary_only: bool,
)
    ensures
        relinked(nodes, from, port, to, to_port).len() == nodes.len(),
        tally(relinked(nodes, from, port, to, to_port), binary_only) == tally(nodes, binary_only),
        forall|i: int|
            0 <= i < nodes.len() ==> slot_weight(
                #[trigger] relinked(nodes, from, port, to, to_port)[i],
                binary_only,
            ) == slot_weight(nodes[i], binary_only),
{
    let after = relinked(nodes, from, port, to, to_port);
    if after != nodes {
        let index = nodes[from].unwrap().ports[port]->index as int;
        lemma_tally_update(nodes, index, after[index], binary_only);
    }
}

/// The budget of a store whose indices fit the pointer type lies between
/// nothing and the largest index.
pub proof fn lemma_budget_bounds(nodes: Graph)
    requires
        nodes.len() <= index_limit(),
    ensures
        0 <= budget(nodes) <= index_limit(),
{
    lemma_tally_bounds(nodes, false);
}

/// Emptying two slots takes their weights off the count.
proof fn lemma_without_pair_tally(nodes: Graph, a: int, b: int, binary_only: bool)
    requires
        0 <= a < nodes.len(),
        0 <= b < nodes.len(),
    ensures
        without_pair(nodes, a, b).len() == nodes.len(),
        tally(without_pair(nodes, a, b), binary_only) == tally(nodes, binary_only) - slot_weight(
            nodes[a],
            binary_only,
        ) - (if a == b {
            0
        } else {
            slot_weight(nodes[b], binary_only)
        }),
{
    lemma_tally_update(nodes, a, None, binary_only);
    lemma_tally_update(nodes.update(a, None), b, None, binary_only);
}

/// Joining a pair appends a marker and moves far ends: the store grows by
/// one slot, and every slot that was there keeps its weight.
proof fn lemma_joined_tally(nodes: Graph, a: int, b: int, p: int, binary_only: bool)
    ensures
        joined(nodes, a, b, p).len() == nodes.len() + 1,
        tally(joined(nodes, a, b, p), binary_only) == tally(nodes, binary_only),
        forall|i: int|
            0 <= i < nodes.len() ==> slot_weight(#[trigger] joined(nodes, a, b, p)[i], binary_only)
                == slot_weight(nodes[i], binary_only),
{
    let q = paired_port(nodes[a].unwrap().kind, p);
    let near = nodes[a].unwrap().ports[p];
    let far = nodes[b].unwrap().ports[q];
    let marker = Some(joint(near, far, a, p, b, q));
    let grown = nodes.push(marker);
    let first = relinked(grown, a, p, nodes.len(), 0);
    reveal(joined);
    lemma_tally_push(nodes, marker, binary_only);
    lemma_relinked_tally(grown, a, p, nodes.len(), 0, binary_only);
    lemma_relinked_tally(first, b, q, nodes.len(), 1, binary_only);
    assert forall|i: int| 0 <= i < nodes.len() implies slot_weight(
        #[trigger] joined(nodes, a, b, p)[i],
        binary_only,
    ) == slot_weight(nodes[i], binary_only) by {
        assert(slot_weight(first[i], binary_only) == slot_weight(grown[i], binary_only));
    }
}

/// What a rewrite does to the length of the store and to a count: the
/// change in length, and a bound on the count afterwards.
proof fn lemma_rewrite_tally(nodes: Graph, binary_only: bool)
    requires
        step_defined(nodes),
        reducible(nodes),
    ensures
        rule_at(nodes, first_active(nodes).unwrap()) is Erase ==> {
            &&& step(nodes).len() == nodes.len()
            &&& tally(step(nodes), binary_only) <= tally(nodes, binary_only)
            &&& tally(step(nodes), false) < tally(nodes, false)
        },
        rule_at(nodes, first_active(nodes).unwrap()) is Annihilate ==> {
            &&& step(nodes).len() == nodes.len() + 2
            &&& tally(step(nodes), binary_only) < tally(nodes, binary_only)
        },
        rule_at(nodes, first_active(nodes).unwrap()) is Commute ==> {
            &&& step(nodes).len() == nodes.len() + 2
            &&& tally(step(nodes), false) == tally(nodes, false)
            &&& tally(step(nodes), true) == tally(nodes, true) - 1
        },
{
    let a = first_active(nodes).unwrap();
    let b = counterpart(nodes, a);
    match rule_at(nodes, a) {
        Rule::Commute => {
            let agent = if nodes[a].unwrap().kind == Kind::ERA { b } else { a };
            let era = if nodes[a].unwrap().kind == Kind::ERA { a } else { b };
            let ports = nodes[agent].unwrap().ports;
            let one = nodes.push(Some(eraser(ports[1])));
            let grown = one.push(Some(eraser(ports[2])));
            let first = relinked(grown, agent, 1, nodes.len(), 0);
            let second = relinked(first, agent, 2, nodes.len() + 1, 0);
            lemma_tally_push(nodes, Some(eraser(ports[1])), false);
            lemma_tally_push(one, Some(eraser(ports[2])), false);
            lemma_tally_push(nodes, Some(eraser(ports[1])), true);
            lemma_tally_push(one, Some(eraser(ports[2])), true);
            lemma_relinked_tally(grown, agent, 1, nodes.len(), 0, false);
            lemma_relinked_tally(first, agent, 2, nodes.len() + 1, 0, false);
            lemma_relinked_tally(grown, agent, 1, nodes.len(), 0, true);
            lemma_relinked_tally(first, agent, 2, nodes.len() + 1, 0, true);
            lemma_without_pair_tally(second, agent, era, false);
            lemma_without_pair_tally(second, agent, era, true);
        },
        Rule::Annihilate => {
            let one = joined(nodes, a, b, 1);
            lemma_joined_tally(nodes, a, b, 1, binary_only);
            lemma_joined_tally(one, a, b, 2, binary_only);
            lemma_without_pair_tally(joined(one, a, b, 2), a, b, binary_only);
        },
        Rule::Erase => {
            lemma_without_pair_tally(nodes, a, b, binary_only);
            lemma_without_pair_tally(nodes, a, b, false);
        },
        Rule::Stuck => {},
    }
}

/// Every rewrite lowers the budget, so a run makes no more rewrites than
/// the budget of the store it starts from.
pub proof fn lemma_step_lowers_budget(nodes: Graph)
    requires
        step_defined(nodes),
        reducible(nodes),
    ensures
        budget(step(nodes)) < budget(nodes),
{
    lemma_rewrite_tally(nodes, false);
}

/// No call of the dispatcher raises the length that the store can grow to.
pub proof fn lemma_step_keeps_reach(nodes: Graph)
    requires
        step_defined(nodes),
    ensures
        reach(step(nodes)) <= reach(nodes),
{
    if reducible(nodes) {
        lemma_rewrite_tally(nodes, true);
    }
}

/// A run that has made `made` rewrites, all of its calls so far having
/// made one, comes to a call that makes none, before the budget is spent.
proof fn lemma_run_ends_after(nodes: Graph, made: nat) -> (last: nat)
    requires
        run_defined(nodes),
        made + budget(run(nodes, made)) <= budget(nodes),
    ensures
        made <= last <= budget(nodes),
        !reducible(run(nodes, last)),
        forall|k: nat| made <= k < last ==> reducible(#[trigger] run(nodes, k)),
    decreases budget(run(nodes, made)),
{
    let here = run(nodes, made);
    lemma_budget_bounds(here);
    if reducible(here) {
        lemma_step_lowers_budget(here);
        lemma_budget_bounds(run(nodes, made + 1));
        lemma_run_ends_after(nodes, made + 1)
    } else {
        made
    }
}

/// Every run comes to an end: from any store whose run stays inside the
/// store, some call of the dispatcher makes no rewrite, and no more calls
/// come before it than the budget of the store. The number of rewrites that
/// the driver reports is this number.
pub proof fn lemma_run_ends(nodes: Graph) -> (last: nat)
    requires
        run_defined(nodes),
    ensures
        last <= budget(nodes) <= index_limit(),
        !reducible(run(nodes, last)),
        forall|k: nat| k < last ==> reducible(#[trigger] run(nodes, k)),
{
    lemma_budget_bounds(nodes);
    lemma_run_ends_after(nodes, 0)
}

} // verus!
