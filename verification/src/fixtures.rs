//! Small nets, built by hand: one for each rule, and a cycle of four nodes.

use crate::budget::lemma_tally_bounds;
use crate::model::{eraser, Graph};
use crate::net::{named, pointer, Kind, Net, Node, NodeView, Port, PortView};
use crate::ready::{loop_free, ready};
use crate::wiring::linked;
use vstd::prelude::*;

verus! {

/// The model of a binary agent with the given ports.
pub open spec fn binary(kind: Kind, principal: PortView, left: PortView, right: PortView) -> NodeView {
    NodeView { kind, ports: seq![principal, left, right] }
}

/// A linked store of a few slots, none of its binary agents wired to
/// itself, is ready: so few slots cannot outgrow the pointer type.
proof fn lemma_ready(nodes: Graph)
    requires
        nodes.len() <= 4,
        linked(nodes),
        loop_free(nodes),
    ensures
        ready(nodes),
{
    lemma_tally_bounds(nodes, true);
}

fn to(index: u32, slot: u32) -> (port: Port)
    ensures
        port@ == pointer(index as int, slot as int),
{
    Port::Pointer { index, slot }
}

fn free(name: &str) -> (port: Port)
    ensures
        port@ == named(name@),
{
    Port::Free { name: name.to_owned() }
}

fn agent(kind: Kind, principal: Port, left: Port, right: Port) -> (slot: Option<Node>)
    ensures
        slot is Some,
        slot.unwrap()@ == binary(kind, principal@, left@, right@),
{
    let node = Node { kind, ports: vec![principal, left, right] };
    assert(node@.ports =~= seq![principal@, left@, right@]);
    Some(node)
}

fn era(principal: Port) -> (slot: Option<Node>)
    ensures
        slot is Some,
        slot.unwrap()@ == eraser(principal@),
{
    let node = Node { kind: Kind::ERA, ports: vec![principal] };
    assert(node@.ports =~= seq![principal@]);
    Some(node)
}

fn pair(first: Option<Node>, second: Option<Node>) -> (net: Net)
    requires
        first is Some,
        second is Some,
    ensures
        net@ == seq![Some(first.unwrap()@), Some(second.unwrap()@)],
{
    let net = Net { nodes: vec![first, second] };
    net
}

/// A `CON` facing a `DUP`: the pair for which there is no rule.
pub fn trivial_commute_1() -> (net: Net)
    ensures
        net@ == seq![
            Some(binary(Kind::CON, pointer(1, 0), named("a"@), named("b"@))),
            Some(binary(Kind::DUP, pointer(0, 0), named("c"@), named("d"@))),
        ],
        ready(net@),
{
    let net = pair(
        agent(Kind::CON, to(1, 0), free("a"), free("b")),
        agent(Kind::DUP, to(0, 0), free("c"), free("d")),
    );
    proof {
        lemma_ready(net@);
    }
    net
}

/// A `CON` facing an eraser.
pub fn trivial_commute_2() -> (net: Net)
    ensures
        net@ == seq![
            Some(binary(Kind::CON, pointer(1, 0), named("a"@), named("b"@))),
            Some(eraser(pointer(0, 0))),
        ],
        ready(net@),
{
    let net = pair(agent(Kind::CON, to(1, 0), free("a"), free("b")), era(to(0, 0)));
    proof {
        lemma_ready(net@);
    }
    net
}

/// A `DUP` facing an eraser.
pub fn trivial_commute_3() -> (net: Net)
    ensures
        net@ == seq![
            Some(binary(Kind::DUP, pointer(1, 0), named("a"@), named("b"@))),
            Some(eraser(pointer(0, 0))),
        ],
        ready(net@),
{
    let net = pair(agent(Kind::DUP, to(1, 0), free("a"), free("b")), era(to(0, 0)));
    proof {
        lemma_ready(net@);
    }
    net
}

/// Two `CON` agents facing each other.
pub fn trivial_annihilate_1() -> (net: Net)
    ensures
        net@ == seq![
            Some(binary(Kind::CON, pointer(1, 0), named("a"@), named("b"@))),
            Some(binary(Kind::CON, pointer(0, 0), named("c"@), named("d"@))),
        ],
        ready(net@),
{
    let net = pair(
        agent(Kind::CON, to(1, 0), free("a"), free("b")),
        agent(Kind::CON, to(0, 0), free("c"), free("d")),
    );
    proof {
        lemma_ready(net@);
    }
    net
}

/// Two `DUP` agents facing each other.
pub fn trivial_annihilate_2() -> (net: Net)
    ensures
        net@ == seq![
            Some(binary(Kind::DUP, pointer(1, 0), named("a"@), named("b"@))),
            Some(binary(Kind::DUP, pointer(0, 0), named("c"@), named("d"@))),
        ],
        ready(net@),
{
    let net = pair(
        agent(Kind::DUP, to(1, 0), free("a"), free("b")),
        agent(Kind::DUP, to(0, 0), free("c"), free("d")),
    );
    proof {
        lemma_ready(net@);
    }
    net
}

/// Two `DUP` agents facing each other, their second auxiliary ports wired
/// to each other.
pub fn test_annihilate_2() -> (net: Net)
    ensures
        net@ == seq![
            Some(binary(Kind::DUP, pointer(1, 0), named("a"@), pointer(1, 2))),
            Some(binary(Kind::DUP, pointer(0, 0), named("c"@), pointer(0, 2))),
        ],
        ready(net@),
{
    let net = pair(
        agent(Kind::DUP, to(1, 0), free("a"), to(1, 2)),
        agent(Kind::DUP, to(0, 0), free("c"), to(0, 2)),
    );
    proof {
        lemma_ready(net@);
    }
    net
}

/// Two erasers facing each other.
pub fn trivial_annihilate_3() -> (net: Net)
    ensures
        net@ == seq![Some(eraser(pointer(1, 0))), Some(eraser(pointer(0, 0)))],
        ready(net@),
{
    let net = pair(era(to(1, 0)), era(to(0, 0)));
    proof {
        lemma_ready(net@);
    }
    net
}

/// A `CON` and a `DUP` facing each other, wired to each other once more
/// and each closed by an eraser.
pub fn nonterminating() -> (net: Net)
    ensures
        net@ == seq![
            Some(binary(Kind::CON, pointer(1, 0), pointer(1, 2), pointer(2, 0))),
            Some(binary(Kind::DUP, pointer(0, 0), pointer(3, 0), pointer(0, 1))),
            Some(eraser(pointer(0, 2))),
            Some(eraser(pointer(1, 1))),
        ],
        ready(net@),
{
    let con = agent(Kind::CON, to(1, 0), to(1, 2), to(2, 0));
    let dup = agent(Kind::DUP, to(0, 0), to(3, 0), to(0, 1));
    let first = era(to(0, 2));
    let second = era(to(1, 1));
    let net = Net { nodes: vec![con, dup, first, second] };
    assert(net@ =~= seq![
        Some(binary(Kind::CON, pointer(1, 0), pointer(1, 2), pointer(2, 0))),
        Some(binary(Kind::DUP, pointer(0, 0), pointer(3, 0), pointer(0, 1))),
        Some(eraser(pointer(0, 2))),
        Some(eraser(pointer(1, 1))),
    ]);
    proof {
        lemma_ready(net@);
    }
    net
}

} // verus!
