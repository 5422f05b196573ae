//! The rule dispatcher and the reduction driver.

use crate::budget::{budget, lemma_budget_bounds, lemma_step_lowers_budget};
use crate::model::{
    annihilate_defined, annihilated, commute_defined, commuted, compacted, counterpart, eraser,
    holds_agent, index_limit, is_active, is_binary, join_defined, joined, joint,
    lemma_first_active_is, lemma_no_active, reducible, relinked, rule_for, run, run_defined, step,
    step_defined, Rule,
};
use crate::names::{
    doubled, keeps_name, lemma_run_names, lemma_step_names, names_kept, occurrences,
};
use crate::net::{
    cleanup, new_node, pointer, relink, remove_node, Kind, Net, Port, PortView,
};
use crate::wiring::lemma_relinked_ports;
use crate::symmetry::{lemma_step_keeps_linked, lemma_step_keeps_symmetric};
use crate::wiring::{annihilates_itself, commutes_looped_agent, linked, symmetric};
use vstd::prelude::*;

verus! {

/// The kind of the node in slot `index`.
fn kind_at(net: &Net, index: u32) -> (kind: Kind)
    requires
        index < net@.len(),
        net@[index as int] is Some,
    ensures
        kind == net@[index as int].unwrap().kind,
{
    match &net.nodes[index as usize] {
        Some(node) => node.kind,
        None => Kind::LOOP,
    }
}

/// A copy of port `slot` of the node in slot `index`.
fn port_at(net: &Net, index: u32, slot: u32) -> (port: Port)
    requires
        index < net@.len(),
        net@[index as int] is Some,
        slot < net@[index as int].unwrap().ports.len(),
    ensures
        port@ == net@[index as int].unwrap().ports[slot as int],
{
    match &net.nodes[index as usize] {
        Some(node) => node.ports[slot as usize].clone(),
        None => Port::Pointer { index, slot },
    }
}

/// Where the principal port of the agent in slot `index` leads, if that
/// agent opens an active pair.
fn active_target(net: &Net, index: u32) -> (target: Option<u32>)
    requires
        index < net@.len(),
        holds_agent(net@, index as int) ==> net@[index as int].unwrap().ports.len() > 0,
    ensures
        target is Some <==> is_active(net@, index as int),
        target matches Some(counter) ==> counter == counterpart(net@, index as int),
{
    match &net.nodes[index as usize] {
        Some(node) => {
            if node.kind == Kind::WIRE || node.kind == Kind::LOOP {
                None
            } else {
                match &node.ports[0] {
                    Port::Pointer { index: counter, slot } => {
                        if *slot == 0 {
                            Some(*counter)
                        } else {
                            None
                        }
                    },
                    Port::Free { .. } => None,
                }
            }
        },
        None => None,
    }
}

/// The rule for an active pair, looked up by the kinds of its two nodes.
fn rule_of(scanned: Kind, facing: Kind) -> (rule: Rule)
    ensures
        rule == rule_for(scanned, facing),
{
    match (scanned, facing) {
        (Kind::ERA, Kind::ERA) => Rule::Erase,
        (Kind::CON, Kind::ERA) | (Kind::DUP, Kind::ERA) => Rule::Commute,
        (Kind::ERA, Kind::CON) | (Kind::ERA, Kind::DUP) => Rule::Commute,
        (Kind::CON, Kind::CON) | (Kind::DUP, Kind::DUP) => Rule::Annihilate,
        _ => Rule::Stuck,
    }
}

/// Commutes the binary agent in slot `agent` with the eraser in slot `era`.
fn commute(net: &mut Net, agent: u32, era: u32)
    requires
        agent < old(net)@.len(),
        era < old(net)@.len(),
        old(net)@[agent as int] is Some,
        commute_defined(old(net)@, agent as int),
    ensures
        final(net)@ == commuted(old(net)@, agent as int, era as int),
{
    let first_port = port_at(net, agent, 1);
    let second_port = port_at(net, agent, 2);
    let first: u32 = new_node(net, Kind::ERA, vec![first_port]);
    assert(net@.last().unwrap().ports =~= eraser(old(net)@[agent as int].unwrap().ports[1]).ports);
    let second: u32 = new_node(net, Kind::ERA, vec![second_port]);
    assert(net@.last().unwrap().ports =~= eraser(old(net)@[agent as int].unwrap().ports[2]).ports);
    relink(net, agent, 1, first, 0);
    relink(net, agent, 2, second, 0);
    remove_node(net, agent);
    remove_node(net, era);
}

/// Joins auxiliary port `slot` of the agent in slot `a` with the port
/// paired to it on the agent in slot `b`: appends the marker for the pair
/// and, where it is a `WIRE`, points the far ends of both ports at it.
fn join(net: &mut Net, a: u32, b: u32, slot: u32)
    requires
        a < old(net)@.len(),
        b < old(net)@.len(),
        old(net)@[a as int] is Some,
        old(net)@[b as int] is Some,
        is_binary(old(net)@[a as int].unwrap().kind),
        1 <= slot <= 2,
        join_defined(old(net)@, a as int, b as int, slot as int),
    ensures
        final(net)@ == joined(old(net)@, a as int, b as int, slot as int),
        final(net)@.len() == old(net)@.len() + 1,
        final(net)@[a as int] is Some,
        final(net)@[b as int] is Some,
        final(net)@[a as int].unwrap().kind == old(net)@[a as int].unwrap().kind,
{
    let paired: u32 = if kind_at(net, a) == Kind::CON {
        3 - slot
    } else {
        slot
    };
    let near = port_at(net, a, slot);
    let far = port_at(net, b, paired);
    let closed = points_to(&near, b, paired) && points_to(&far, a, slot);
    proof {
        reveal(joined);
        lemma_relinked_ports(
            old(net)@.push(
                Some(
                    joint(near@, far@, a as int, slot as int, b as int, paired as int),
                ),
            ),
            a as int,
            slot as int,
            old(net)@.len(),
            0,
        );
        lemma_relinked_ports(
            relinked(
                old(net)@.push(
                    Some(
                        joint(near@, far@, a as int, slot as int, b as int, paired as int),
                    ),
                ),
                a as int,
                slot as int,
                old(net)@.len(),
                0,
            ),
            b as int,
            paired as int,
            old(net)@.len(),
            1,
        );
    }
    if closed {
        new_node(net, Kind::LOOP, Vec::new());
        assert(net@.last().unwrap().ports =~= Seq::<PortView>::empty());
    } else {
        let wire: u32 = new_node(net, Kind::WIRE, vec![near, far]);
        assert(net@.last().unwrap().ports =~= seq![near@, far@]);
        relink(net, a, slot, wire, 0);
        relink(net, b, paired, wire, 1);
    }
}

/// Whether the port is a pointer to port `slot` of the node in slot `index`.
fn points_to(port: &Port, index: u32, slot: u32) -> (hit: bool)
    ensures
        hit == (port@ == pointer(index as int, slot as int)),
{
    match port {
        Port::Pointer { index: named, slot: at } => *named == index && *at == slot,
        Port::Free { .. } => false,
    }
}

/// Annihilates the two agents of one binary kind in slots `a` and `b`.
fn annihilate(net: &mut Net, a: u32, b: u32)
    requires
        a < old(net)@.len(),
        b < old(net)@.len(),
        old(net)@[a as int] is Some,
        old(net)@[b as int] is Some,
        is_binary(old(net)@[a as int].unwrap().kind),
        annihilate_defined(old(net)@, a as int, b as int),
    ensures
        final(net)@ == annihilated(old(net)@, a as int, b as int),
{
    join(net, a, b, 1);
    join(net, a, b, 2);
    remove_node(net, a);
    remove_node(net, b);
}

/// One call of the dispatcher: scans the slots in increasing order for the
/// first agent that opens an active pair and rewrites that pair by its
/// rule. Returns whether a rewrite was made; where none was, the store is
/// as it was, so the next call makes none either. A pair without a rule
/// ends the scan: no later pair is looked at. Nodes that the rewrite makes
/// are appended, and the slots of the two nodes that it removes stay empty.
///
/// A store whose agents are symmetrically wired is so again after the
/// call, unless the call commutes a binary agent whose two auxiliary ports
/// are wired to each other. The same holds of a store in which the markers
/// are symmetrically wired too, unless the call annihilates an agent with
/// itself and joins one of its auxiliary ports twice.
///
/// Free ports persist: on a linked store the call leaves every name on as
/// many free ports as it stood on. The one addition is made where an agent
/// is annihilated with itself, which leaves each of its auxiliary ports on
/// two markers.
pub fn reduce(net: &mut Net) -> (fired: bool)
    requires
        step_defined(old(net)@),
    ensures
        fired == reducible(old(net)@),
        final(net)@ == step(old(net)@),
        !fired ==> final(net)@ == old(net)@ && !reducible(final(net)@),
        linked(old(net)@) && !commutes_looped_agent(old(net)@) ==> linked(final(net)@),
        symmetric(old(net)@) && !commutes_looped_agent(old(net)@) && !annihilates_itself(old(net)@)
            ==> symmetric(final(net)@),
        linked(old(net)@) ==> names_kept(old(net)@, final(net)@),
{
    proof {
        if linked(net@) {
            assert forall|name: Seq<char>|
                (#[trigger] occurrences(step(net@), name)) == occurrences(net@, name) + doubled(
                    net@,
                    name,
                ) by {
                lemma_step_names(net@, name);
            }
        }
        if linked(net@) && !commutes_looped_agent(net@) {
            lemma_step_keeps_linked(net@);
        }
        if symmetric(net@) && !commutes_looped_agent(net@) && !annihilates_itself(net@) {
            lemma_step_keeps_symmetric(net@);
        }
    }
    let count: u32 = net.nodes.len() as u32;
    let mut next: u32 = 0;
    while next < count
        invariant
            net@ == old(net)@,
            count == net@.len(),
            next <= count,
            step_defined(net@),
            forall|j: int| 0 <= j < next ==> !is_active(net@, j),
            linked(net@) && !commutes_looped_agent(net@) ==> linked(step(net@)),
            symmetric(net@) && !commutes_looped_agent(net@) && !annihilates_itself(net@) ==> symmetric(
                step(net@),
            ),
            linked(net@) ==> names_kept(net@, step(net@)),
        decreases count - next,
    {
        if let Some(counter) = active_target(net, next) {
            proof {
                lemma_first_active_is(net@, next as int);
            }
            let scanned = kind_at(net, next);
            let facing = kind_at(net, counter);
            match rule_of(scanned, facing) {
                Rule::Commute => {
                    if scanned == Kind::ERA {
                        commute(net, counter, next);
                    } else {
                        commute(net, next, counter);
                    }
                    return true;
                },
                Rule::Annihilate => {
                    annihilate(net, next, counter);
                    return true;
                },
                Rule::Erase => {
                    remove_node(net, next);
                    remove_node(net, counter);
                    return true;
                },
                Rule::Stuck => {
                    return false;
                },
            }
        }
        next = next + 1;
    }
    proof {
        lemma_no_active(net@);
    }
    false
}

/// The driver: calls the dispatcher until it makes no rewrite, then closes
/// up the empty slots once. Returns the number of rewrites made. Every
/// name stands on as many free ports afterwards as before, as long as the
/// store stays linked and no agent is annihilated with itself.
pub fn reduce_all(net: &mut Net) -> (reductions: u32)
    requires
        run_defined(old(net)@),
    ensures
        final(net)@ == compacted(run(old(net)@, reductions as nat)),
        !reducible(run(old(net)@, reductions as nat)),
        forall|k: nat| k < reductions ==> reducible(#[trigger] run(old(net)@, k)),
        reductions <= budget(old(net)@),
        forall|name: Seq<char>|
            (#[trigger] keeps_name(old(net)@, reductions as nat, name)) ==> occurrences(
                final(net)@,
                name,
            ) == occurrences(old(net)@, name),
{
    let mut reductions: u32 = 0;
    proof {
        assert(step_defined(run(net@, 0)));
        lemma_budget_bounds(net@);
    }
    loop
        invariant
            run_defined(old(net)@),
            net@ == run(old(net)@, reductions as nat),
            forall|k: nat| k < reductions ==> reducible(#[trigger] run(old(net)@, k)),
            0 <= budget(net@),
            reductions + budget(net@) <= budget(old(net)@) <= index_limit(),
        ensures
            net@ == run(old(net)@, reductions as nat),
            !reducible(net@),
            forall|k: nat| k < reductions ==> reducible(#[trigger] run(old(net)@, k)),
            reductions <= budget(old(net)@),
        decreases budget(net@),
    {
        let ghost before = net@;
        if !reduce(net) {
            break;
        }
        proof {
            assert(step_defined(run(old(net)@, (reductions + 1) as nat)));
            lemma_step_lowers_budget(before);
            lemma_budget_bounds(net@);
        }
        reductions += 1;
    }
    cleanup(net);
    proof {
        assert forall|name: Seq<char>|
            (#[trigger] keeps_name(old(net)@, reductions as nat, name)) implies occurrences(
            net@,
            name,
        ) == occurrences(old(net)@, name) by {
            lemma_run_names(old(net)@, reductions as nat, name);
        }
    }
    reductions
}

} // verus!
