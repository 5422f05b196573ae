//! A condition on a store that is plain to check and that lasts through
//! every run: a store that meets it can be handed to the driver.

use crate::budget::{lemma_step_keeps_reach, lemma_tally_bounds, reach};
use crate::model::{
    binary_of, counterpart, eraser, first_active, holds_agent, index_limit, joined, relinked,
    rule_at, run, run_defined, step, step_defined, Graph, Rule,
};
use crate::net::pointer;
use crate::symmetry::lemma_step_keeps_linked;
use crate::wiring::{
    commutes_looped_agent, lemma_joined_ports, lemma_linked_pair, lemma_linked_step_defined,
    lemma_relinked_ports, linked,
};
use vstd::prelude::*;

verus! {

/// No binary agent of the store has its two auxiliary ports wired to each
/// other.
pub open spec fn loop_free(nodes: Graph) -> bool {
    forall|n: int| #[trigger]
        holds_agent(nodes, n) && nodes[n].unwrap().ports.len() > 1 ==> nodes[n].unwrap().ports[1]
            != pointer(n, 2)
}

/// The store can be handed to the driver: it is linked, no binary agent
/// has its two auxiliary ports wired to each other, and the length that it
/// can grow to fits the pointer type.
pub open spec fn ready(nodes: Graph) -> bool {
    &&& linked(nodes)
    &&& loop_free(nodes)
    &&& reach(nodes) <= index_limit()
}

/// A store that is ready can be rewritten.
pub proof fn lemma_ready_step_defined(nodes: Graph)
    requires
        ready(nodes),
    ensures
        step_defined(nodes),
{
    if nodes.len() < index_limit() {
        lemma_linked_step_defined(nodes);
    } else {
        lemma_tally_bounds(nodes, true);
        if first_active(nodes) is Some {
            let a = first_active(nodes).unwrap();
            lemma_linked_pair(nodes, a);
        }
        assert forall|j: int| holds_agent(nodes, j) implies nodes[j].unwrap().ports.len() > 0 by {}
    }
}

/// No rewrite wires the two auxiliary ports of a binary agent to each
/// other.
proof fn lemma_step_keeps_loop_free(nodes: Graph)
    requires
        linked(nodes),
        loop_free(nodes),
    ensures
        loop_free(step(nodes)),
{
    if first_active(nodes) is Some {
        let a = first_active(nodes).unwrap();
        lemma_linked_pair(nodes, a);
        let b = counterpart(nodes, a);
        let after = step(nodes);
        match rule_at(nodes, a) {
            Rule::Commute => {
                let x = binary_of(nodes, a);
                let ports = nodes[x].unwrap().ports;
                let grown = nodes.push(Some(eraser(ports[1]))).push(Some(eraser(ports[2])));
                let first = relinked(grown, x, 1, nodes.len(), 0);
                lemma_relinked_ports(grown, x, 1, nodes.len(), 0);
                lemma_relinked_ports(first, x, 2, nodes.len() + 1, 0);
                assert forall|n: int| #[trigger]
                    holds_agent(after, n) && after[n].unwrap().ports.len()
                        > 1 implies after[n].unwrap().ports[1] != pointer(n, 2) by {
                    assert(holds_agent(nodes, n));
                }
            },
            Rule::Annihilate => {
                let one = joined(nodes, a, b, 1);
                let two = joined(one, a, b, 2);
                lemma_joined_ports(nodes, a, b, 1);
                lemma_joined_ports(one, a, b, 2);
                assert forall|n: int| #[trigger]
                    holds_agent(after, n) && after[n].unwrap().ports.len()
                        > 1 implies after[n].unwrap().ports[1] != pointer(n, 2) by {
                    assert(after[n] == two[n]);
                    assert(n < one.len());
                    assert(one[n] is Some);
                    assert(n < nodes.len());
                    assert(nodes[n] is Some);
                    assert(holds_agent(nodes, n));
                }
            },
            Rule::Erase => {
                assert forall|n: int| #[trigger]
                    holds_agent(after, n) && after[n].unwrap().ports.len()
                        > 1 implies after[n].unwrap().ports[1] != pointer(n, 2) by {
                    assert(holds_agent(nodes, n));
                }
            },
            Rule::Stuck => {},
        }
    }
}

/// A store that is ready stays so through a call of the dispatcher.
pub proof fn lemma_step_keeps_ready(nodes: Graph)
    requires
        ready(nodes),
    ensures
        ready(step(nodes)),
{
    lemma_ready_step_defined(nodes);
    lemma_step_keeps_reach(nodes);
    lemma_step_keeps_loop_free(nodes);
    assert(!commutes_looped_agent(nodes)) by {
        if first_active(nodes) is Some {
            let a = first_active(nodes).unwrap();
            lemma_linked_pair(nodes, a);
            assert(rule_at(nodes, a) is Commute ==> holds_agent(nodes, binary_of(nodes, a)));
        }
    }
    lemma_step_keeps_linked(nodes);
}

/// A store that is ready stays so through any number of calls of the
/// dispatcher.
pub proof fn lemma_run_keeps_ready(nodes: Graph, n: nat)
    requires
        ready(nodes),
    ensures
        ready(run(nodes, n)),
    decreases n,
{
    if n > 0 {
        lemma_run_keeps_ready(nodes, (n - 1) as nat);
        lemma_step_keeps_ready(run(nodes, (n - 1) as nat));
    }
}

/// A store that is ready meets what the driver asks: every call of the
/// dispatcher in its run stays inside the store.
pub proof fn lemma_ready_run_defined(nodes: Graph)
    requires
        ready(nodes),
    ensures
        run_defined(nodes),
{
    assert forall|n: nat| step_defined(#[trigger] run(nodes, n)) by {
        lemma_run_keeps_ready(nodes, n);
        lemma_ready_step_defined(run(nodes, n));
    }
}

} // verus!
