//! The graph store: node slots, ports, and the mathematical model that the
//! contracts of the whole crate are stated over.

use crate::model::{
    compacted, index_limit, lemma_compacted_full, lemma_compacted_remove, relink_defined, relinked,
    Graph,
};
use vstd::prelude::*;

verus! {

/// The tag of a node. `CON`, `DUP` and `ERA` are agents; `WIRE` and `LOOP`
/// are inert markers left behind by annihilation.
#[derive(Clone, Copy, Debug, PartialEq, Eq, Structural)]
pub enum Kind {
    CON,
    DUP,
    ERA,
    WIRE,
    LOOP,
}

/// One end of a wire.
#[derive(Debug)]
pub enum Port {
    /// Wired to port `slot` of the node in slot `index` of the store.
    Pointer { index: u32, slot: u32 },
    /// A named boundary wire of the net.
    Free { name: String },
}

/// The model of a [`Port`].
pub enum PortView {
    Pointer { index: nat, slot: nat },
    Free { name: Seq<char> },
}

/// The model of a pointer to port `slot` of the node in slot `index`.
pub open spec fn pointer(index: int, slot: int) -> PortView {
    PortView::Pointer { index: index as nat, slot: slot as nat }
}

/// The model of a free port of the given name.
pub open spec fn named(name: Seq<char>) -> PortView {
    PortView::Free { name }
}

impl View for Port {
    type V = PortView;

    open spec fn view(&self) -> PortView {
        match *self {
            Port::Pointer { index, slot } => PortView::Pointer {
                index: index as nat,
                slot: slot as nat,
            },
            Port::Free { name } => PortView::Free { name: name@ },
        }
    }
}

impl Clone for Port {
    fn clone(&self) -> (copy: Port)
        ensures
            copy@ == self@,
    {
        match self {
            Port::Pointer { index, slot } => Port::Pointer { index: *index, slot: *slot },
            Port::Free { name } => Port::Free { name: name.clone() },
        }
    }
}

/// A node: its kind and its ports, port 0 being the principal one.
#[derive(Debug)]
pub struct Node {
    pub kind: Kind,
    pub ports: Vec<Port>,
}

/// The model of a [`Node`].
pub struct NodeView {
    pub kind: Kind,
    pub ports: Seq<PortView>,
}

impl View for Node {
    type V = NodeView;

    open spec fn view(&self) -> NodeView {
        NodeView { kind: self.kind, ports: Seq::new(self.ports@.len(), |i: int| self.ports@[i]@) }
    }
}

impl Clone for Node {
    fn clone(&self) -> (copy: Node)
        ensures
            copy@ == self@,
    {
        let mut ports: Vec<Port> = Vec::new();
        let mut next: usize = 0;
        while next < self.ports.len()
            invariant
                next <= self.ports.len(),
                ports.len() == next,
                forall|i: int| 0 <= i < next ==> ports@[i]@ == self.ports@[i]@,
            decreases self.ports.len() - next,
        {
            ports.push(self.ports[next].clone());
            next += 1;
        }
        let copy = Node { kind: self.kind, ports };
        assert(copy@.ports =~= self@.ports);
        copy
    }
}

/// The model of one slot of the store: a node, or nothing where a node was
/// removed.
pub open spec fn slot_view(slot: Option<Node>) -> Option<NodeView> {
    match slot {
        Some(node) => Some(node@),
        None => None,
    }
}

/// The store: node slots addressed by index.
#[derive(Debug)]
pub struct Net {
    pub nodes: Vec<Option<Node>>,
}

impl View for Net {
    type V = Graph;

    open spec fn view(&self) -> Graph {
        Seq::new(self.nodes@.len(), |i: int| slot_view(self.nodes@[i]))
    }
}

impl Clone for Net {
    fn clone(&self) -> (copy: Net)
        ensures
            copy@ == self@,
    {
        let mut nodes: Vec<Option<Node>> = Vec::new();
        let mut next: usize = 0;
        while next < self.nodes.len()
            invariant
                next <= self.nodes.len(),
                nodes.len() == next,
                forall|i: int| 0 <= i < next ==> slot_view(nodes@[i]) == slot_view(self.nodes@[i]),
            decreases self.nodes.len() - next,
        {
            let slot = match &self.nodes[next] {
                Some(node) => Some(node.clone()),
                None => None,
            };
            nodes.push(slot);
            next += 1;
        }
        let copy = Net { nodes };
        copy
    }
}

/// Appends a node and returns the index of its slot. The ports are taken as
/// they are: keeping the wires symmetric is the caller's part.
pub fn new_node(net: &mut Net, kind: Kind, ports: Vec<Port>) -> (index: u32)
    requires
        old(net)@.len() <= index_limit(),
    ensures
        index == old(net)@.len(),
        final(net)@ == old(net)@.push(Some(Node { kind, ports }@)),
{
    let index: u32 = net.nodes.len() as u32;
    net.nodes.push(Some(Node { kind, ports }));
    index
}

/// Empties the slot at `index`. Emptying an empty slot changes nothing.
pub fn remove_node(net: &mut Net, index: u32)
    requires
        index < old(net)@.len(),
    ensures
        final(net)@ == old(net)@.update(index as int, None),
{
    net.nodes[index as usize] = None;
}

/// Points the far end of the wire that leaves port `from_port` of node
/// `from` at port `to_port` of node `to`. This is one half of moving a
/// wire: that the port of `to` points back is the caller's part.
pub fn relink(net: &mut Net, from: u32, from_port: u32, to: u32, to_port: u32)
    requires
        relink_defined(old(net)@, from as int, from_port as int),
    ensures
        final(net)@ == relinked(
            old(net)@,
            from as int,
            from_port as int,
            to as nat,
            to_port as nat,
        ),
{
    let target: Option<(u32, u32)> = match &net.nodes[from as usize] {
        Some(node) => match &node.ports[from_port as usize] {
            Port::Pointer { index, slot } => Some((*index, *slot)),
            Port::Free { .. } => None,
        },
        None => None,
    };
    if let Some((index, slot)) = target {
        match &mut net.nodes[index as usize] {
            Some(far) => {
                far.ports[slot as usize] = Port::Pointer { index: to, slot: to_port };
            },
            None => {},
        }
    }
    assert(net@ =~= relinked(
        old(net)@,
        from as int,
        from_port as int,
        to as nat,
        to_port as nat,
    )) by {
        if let Some((index, slot)) = target {
            if old(net)@[index as int] is Some {
                assert(net@[index as int].unwrap().ports =~= old(net)@[index as int].unwrap().ports.update(
                    slot as int,
                    PortView::Pointer { index: to as nat, slot: to_port as nat },
                ));
            }
        }
    }
}

/// Closes up the empty slots. The nodes that stay keep their order and
/// their contents; pointers are not renumbered, so a pointer to a node
/// behind an empty slot names another slot afterwards.
pub fn cleanup(net: &mut Net)
    ensures
        final(net)@ == compacted(old(net)@),
        final(net)@.len() <= old(net)@.len(),
        forall|i: int| 0 <= i < final(net)@.len() ==> final(net)@[i] is Some,
{
    let mut index: usize = 0;
    while index < net.nodes.len()
        invariant
            index <= net.nodes.len(),
            forall|j: int| 0 <= j < index ==> net@[j] is Some,
            compacted(net@) == compacted(old(net)@),
        decreases net.nodes.len() - index,
    {
        if net.nodes[index].is_some() {
            index += 1;
        } else {
            let ghost before = net@;
            net.nodes.remove(index);
            proof {
                assert(net@ =~= before.remove(index as int));
                lemma_compacted_remove(before, index as int);
            }
        }
    }
    proof {
        lemma_compacted_full(net@);
        old(net)@.lemma_filter_len(|slot: Option<NodeView>| slot is Some);
    }
}

} // verus!
