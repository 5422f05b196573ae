use inet::fixtures::{
    nonterminating, test_annihilate_2, trivial_annihilate_1, trivial_annihilate_2,
    trivial_annihilate_3, trivial_commute_1, trivial_commute_2, trivial_commute_3,
};
use inet::net::{new_node, Kind, Net, Node, Port};
use inet::reduce::{reduce, reduce_all};

fn to(index: u32, slot: u32) -> Port {
    Port::Pointer { index, slot }
}

fn free(name: &str) -> Port {
    Port::Free { name: String::from(name) }
}

fn some(kind: Kind, ports: Vec<Port>) -> Option<Node> {
    Some(Node { kind, ports })
}

fn same_port(left: &Port, right: &Port) -> bool {
    match (left, right) {
        (Port::Pointer { index: a, slot: b }, Port::Pointer { index: c, slot: d }) => {
            a == c && b == d
        }
        (Port::Free { name: a }, Port::Free { name: b }) => a == b,
        _ => false,
    }
}

fn same_slot(left: &Option<Node>, right: &Option<Node>) -> bool {
    match (left, right) {
        (None, None) => true,
        (Some(a), Some(b)) => {
            a.kind == b.kind
                && a.ports.len() == b.ports.len()
                && a.ports.iter().zip(b.ports.iter()).all(|(p, q)| same_port(p, q))
        }
        _ => false,
    }
}

fn same_net(net: &Net, expected: &[Option<Node>]) -> bool {
    net.nodes.len() == expected.len()
        && net.nodes.iter().zip(expected.iter()).all(|(a, b)| same_slot(a, b))
}

// Every port of every agent that is there names a slot of the store, and
// the node in that slot, if it is still there, points back.
fn agents_are_mirrored(net: &Net) -> bool {
    for (n, slot) in net.nodes.iter().enumerate() {
        let node = match slot {
            Some(node) => node,
            None => continue,
        };
        if node.kind == Kind::WIRE || node.kind == Kind::LOOP {
            continue;
        }
        for (p, port) in node.ports.iter().enumerate() {
            if let Port::Pointer { index, slot } = port {
                if *index as usize >= net.nodes.len() {
                    return false;
                }
                match &net.nodes[*index as usize] {
                    Some(far) => {
                        if *slot as usize >= far.ports.len() {
                            return false;
                        }
                        if !same_port(&far.ports[*slot as usize], &to(n as u32, p as u32)) {
                            return false;
                        }
                    }
                    None => {
                        if *slot == 0 {
                            return false;
                        }
                    }
                }
            }
        }
    }
    true
}

// Every port of every node that is there, markers included, names a slot
// of the store, and the node in that slot, if it is still there, points
// back.
fn all_nodes_are_mirrored(net: &Net) -> bool {
    if !agents_are_mirrored(net) {
        return false;
    }
    for (n, slot) in net.nodes.iter().enumerate() {
        let node = match slot {
            Some(node) => node,
            None => continue,
        };
        for (p, port) in node.ports.iter().enumerate() {
            if let Port::Pointer { index, slot } = port {
                if *index as usize >= net.nodes.len() {
                    return false;
                }
                if let Some(far) = &net.nodes[*index as usize] {
                    if *slot as usize >= far.ports.len() {
                        return false;
                    }
                    if !same_port(&far.ports[*slot as usize], &to(n as u32, p as u32)) {
                        return false;
                    }
                }
            }
        }
    }
    true
}

// The agents in the store plus the slots that it can still grow by.
fn budget(net: &Net) -> u64 {
    let agents = net
        .nodes
        .iter()
        .filter(|slot| match slot {
            Some(node) => node.kind != Kind::WIRE && node.kind != Kind::LOOP,
            None => false,
        })
        .count() as u64;
    agents + u32::MAX as u64 - net.nodes.len() as u64
}

#[test]
fn era_era_reduces_in_one_step_to_an_empty_net() {
    let mut net = trivial_annihilate_3();
    assert!(reduce(&mut net));
    assert!(same_net(&net, &[None, None]));
    assert!(!reduce(&mut net));

    let mut net = trivial_annihilate_3();
    assert_eq!(reduce_all(&mut net), 1);
    assert_eq!(net.nodes.len(), 0);
}

#[test]
fn con_con_with_free_auxiliaries_leaves_two_crossed_wires() {
    let mut net = trivial_annihilate_1();
    assert!(reduce(&mut net));
    assert!(same_net(
        &net,
        &[
            None,
            None,
            some(Kind::WIRE, vec![free("a"), free("d")]),
            some(Kind::WIRE, vec![free("b"), free("c")]),
        ]
    ));
    assert!(!reduce(&mut net));

    let mut net = trivial_annihilate_1();
    assert_eq!(reduce_all(&mut net), 1);
    assert!(same_net(
        &net,
        &[
            some(Kind::WIRE, vec![free("a"), free("d")]),
            some(Kind::WIRE, vec![free("b"), free("c")]),
        ]
    ));
}

#[test]
fn dup_dup_with_free_auxiliaries_leaves_two_straight_wires() {
    let mut net = trivial_annihilate_2();
    assert_eq!(reduce_all(&mut net), 1);
    assert!(same_net(
        &net,
        &[
            some(Kind::WIRE, vec![free("a"), free("c")]),
            some(Kind::WIRE, vec![free("b"), free("d")]),
        ]
    ));
}

#[test]
fn con_con_with_an_auxiliary_pair_wired_back_leaves_a_loop() {
    let mut net = Net {
        nodes: vec![
            some(Kind::CON, vec![to(1, 0), free("a"), to(1, 1)]),
            some(Kind::CON, vec![to(0, 0), to(0, 2), free("d")]),
        ],
    };
    assert!(reduce(&mut net));
    assert!(same_net(
        &net,
        &[None, None, some(Kind::WIRE, vec![free("a"), free("d")]), some(Kind::LOOP, vec![])]
    ));
    assert!(!reduce(&mut net));
}

#[test]
fn dup_dup_with_an_auxiliary_pair_wired_back_leaves_a_loop() {
    let mut net = test_annihilate_2();
    assert!(reduce(&mut net));
    assert!(same_net(
        &net,
        &[None, None, some(Kind::WIRE, vec![free("a"), free("c")]), some(Kind::LOOP, vec![])]
    ));

    let mut net = test_annihilate_2();
    assert_eq!(reduce_all(&mut net), 1);
    assert_eq!(net.nodes.len(), 2);
    assert_eq!(net.nodes[0].as_ref().unwrap().kind, Kind::WIRE);
    assert_eq!(net.nodes[1].as_ref().unwrap().kind, Kind::LOOP);
}

#[test]
fn both_auxiliary_pairs_wired_back_leave_two_loops() {
    let mut net = Net {
        nodes: vec![
            some(Kind::DUP, vec![to(1, 0), to(1, 1), to(1, 2)]),
            some(Kind::DUP, vec![to(0, 0), to(0, 1), to(0, 2)]),
        ],
    };
    assert_eq!(reduce_all(&mut net), 1);
    assert!(same_net(&net, &[some(Kind::LOOP, vec![]), some(Kind::LOOP, vec![])]));
}

#[test]
fn con_era_leaves_an_eraser_on_each_auxiliary() {
    let mut net = trivial_commute_2();
    assert!(reduce(&mut net));
    assert!(same_net(
        &net,
        &[None, None, some(Kind::ERA, vec![free("a")]), some(Kind::ERA, vec![free("b")])]
    ));
    assert!(!reduce(&mut net));

    let mut net = trivial_commute_2();
    assert_eq!(reduce_all(&mut net), 1);
    assert!(same_net(
        &net,
        &[some(Kind::ERA, vec![free("a")]), some(Kind::ERA, vec![free("b")])]
    ));
}

#[test]
fn dup_era_leaves_an_eraser_on_each_auxiliary() {
    let mut net = trivial_commute_3();
    assert_eq!(reduce_all(&mut net), 1);
    assert!(same_net(
        &net,
        &[some(Kind::ERA, vec![free("a")]), some(Kind::ERA, vec![free("b")])]
    ));
}

#[test]
fn an_eraser_scanned_first_commutes_as_well() {
    let mut net = Net {
        nodes: vec![
            some(Kind::ERA, vec![to(1, 0)]),
            some(Kind::CON, vec![to(0, 0), free("a"), free("b")]),
        ],
    };
    assert!(reduce(&mut net));
    assert!(same_net(
        &net,
        &[None, None, some(Kind::ERA, vec![free("a")]), some(Kind::ERA, vec![free("b")])]
    ));

    let mut net = Net {
        nodes: vec![
            some(Kind::ERA, vec![to(1, 0)]),
            some(Kind::DUP, vec![to(0, 0), free("a"), free("b")]),
        ],
    };
    assert!(reduce(&mut net));
    assert!(same_net(
        &net,
        &[None, None, some(Kind::ERA, vec![free("a")]), some(Kind::ERA, vec![free("b")])]
    ));
}

#[test]
fn commute_points_the_far_ends_at_the_new_erasers() {
    let mut net = Net {
        nodes: vec![
            some(Kind::CON, vec![to(1, 0), to(2, 1), to(3, 2)]),
            some(Kind::ERA, vec![to(0, 0)]),
            some(Kind::DUP, vec![free("x"), to(0, 1), free("y")]),
            some(Kind::DUP, vec![free("u"), free("v"), to(0, 2)]),
        ],
    };
    assert!(agents_are_mirrored(&net));
    assert!(reduce(&mut net));
    assert!(same_net(
        &net,
        &[
            None,
            None,
            some(Kind::DUP, vec![free("x"), to(4, 0), free("y")]),
            some(Kind::DUP, vec![free("u"), free("v"), to(5, 0)]),
            some(Kind::ERA, vec![to(2, 1)]),
            some(Kind::ERA, vec![to(3, 2)]),
        ]
    ));
    assert!(agents_are_mirrored(&net));
    assert!(!reduce(&mut net));
}

#[test]
fn commute_with_both_auxiliaries_on_one_far_node() {
    let mut net = Net {
        nodes: vec![
            some(Kind::DUP, vec![to(1, 0), to(2, 2), to(2, 1)]),
            some(Kind::ERA, vec![to(0, 0)]),
            some(Kind::CON, vec![free("p"), to(0, 2), to(0, 1)]),
        ],
    };
    assert!(agents_are_mirrored(&net));
    assert!(reduce(&mut net));
    assert!(same_net(
        &net,
        &[
            None,
            None,
            some(Kind::CON, vec![free("p"), to(4, 0), to(3, 0)]),
            some(Kind::ERA, vec![to(2, 2)]),
            some(Kind::ERA, vec![to(2, 1)]),
        ]
    ));
    assert!(agents_are_mirrored(&net));
}

#[test]
fn new_erasers_are_reduced_by_later_calls() {
    let mut net = Net {
        nodes: vec![
            some(Kind::CON, vec![to(1, 0), to(2, 0), to(3, 0)]),
            some(Kind::ERA, vec![to(0, 0)]),
            some(Kind::ERA, vec![to(0, 1)]),
            some(Kind::ERA, vec![to(0, 2)]),
        ],
    };
    assert!(reduce(&mut net));
    assert!(same_net(
        &net,
        &[
            None,
            None,
            some(Kind::ERA, vec![to(4, 0)]),
            some(Kind::ERA, vec![to(5, 0)]),
            some(Kind::ERA, vec![to(2, 0)]),
            some(Kind::ERA, vec![to(3, 0)]),
        ]
    ));
    assert!(agents_are_mirrored(&net));
    assert!(reduce(&mut net));
    assert!(same_net(
        &net,
        &[
            None,
            None,
            None,
            some(Kind::ERA, vec![to(5, 0)]),
            None,
            some(Kind::ERA, vec![to(3, 0)])
        ]
    ));
    assert!(agents_are_mirrored(&net));
    assert!(reduce(&mut net));
    assert!(same_net(&net, &[None, None, None, None, None, None]));
    assert!(!reduce(&mut net));
}

#[test]
fn reduce_all_counts_every_rewrite_and_compacts_once() {
    let mut net = Net {
        nodes: vec![
            some(Kind::CON, vec![to(1, 0), to(2, 0), to(3, 0)]),
            some(Kind::ERA, vec![to(0, 0)]),
            some(Kind::ERA, vec![to(0, 1)]),
            some(Kind::ERA, vec![to(0, 2)]),
        ],
    };
    assert_eq!(reduce_all(&mut net), 3);
    assert_eq!(net.nodes.len(), 0);
}

#[test]
fn reduce_all_keeps_the_order_of_what_is_left() {
    let mut net = Net {
        nodes: vec![
            some(Kind::WIRE, vec![free("w"), free("z")]),
            some(Kind::ERA, vec![to(2, 0)]),
            some(Kind::ERA, vec![to(1, 0)]),
            some(Kind::DUP, vec![to(4, 0), free("a"), free("b")]),
            some(Kind::ERA, vec![to(3, 0)]),
            some(Kind::ERA, vec![free("last")]),
        ],
    };
    assert_eq!(reduce_all(&mut net), 2);
    assert!(same_net(
        &net,
        &[
            some(Kind::WIRE, vec![free("w"), free("z")]),
            some(Kind::ERA, vec![free("last")]),
            some(Kind::ERA, vec![free("a")]),
            some(Kind::ERA, vec![free("b")]),
        ]
    ));
}

#[test]
fn reduce_all_on_an_empty_net_makes_no_rewrite() {
    let mut net = Net { nodes: vec![] };
    assert_eq!(reduce_all(&mut net), 0);
    assert_eq!(net.nodes.len(), 0);
}

#[test]
fn con_dup_is_left_alone() {
    let mut net = trivial_commute_1();
    assert!(!reduce(&mut net));
    assert!(same_net(
        &net,
        &[
            some(Kind::CON, vec![to(1, 0), free("a"), free("b")]),
            some(Kind::DUP, vec![to(0, 0), free("c"), free("d")]),
        ]
    ));
    assert_eq!(reduce_all(&mut net), 0);
    assert_eq!(net.nodes.len(), 2);
}

#[test]
fn dup_con_is_left_alone() {
    let mut net = Net {
        nodes: vec![
            some(Kind::DUP, vec![to(1, 0), free("a"), free("b")]),
            some(Kind::CON, vec![to(0, 0), free("c"), free("d")]),
        ],
    };
    assert!(!reduce(&mut net));
    assert!(same_net(
        &net,
        &[
            some(Kind::DUP, vec![to(1, 0), free("a"), free("b")]),
            some(Kind::CON, vec![to(0, 0), free("c"), free("d")]),
        ]
    ));
}

#[test]
fn con_dup_ends_the_scan_before_a_later_pair() {
    let mut net = Net {
        nodes: vec![
            some(Kind::CON, vec![to(1, 0), free("a"), free("b")]),
            some(Kind::DUP, vec![to(0, 0), free("c"), free("d")]),
            some(Kind::ERA, vec![to(3, 0)]),
            some(Kind::ERA, vec![to(2, 0)]),
        ],
    };
    assert!(!reduce(&mut net));
    assert!(same_net(
        &net,
        &[
            some(Kind::CON, vec![to(1, 0), free("a"), free("b")]),
            some(Kind::DUP, vec![to(0, 0), free("c"), free("d")]),
            some(Kind::ERA, vec![to(3, 0)]),
            some(Kind::ERA, vec![to(2, 0)]),
        ]
    ));
    assert_eq!(reduce_all(&mut net), 0);
    assert_eq!(net.nodes.len(), 4);
}

#[test]
fn an_earlier_pair_is_rewritten_before_con_dup_is_met() {
    let mut net = Net {
        nodes: vec![
            some(Kind::ERA, vec![to(1, 0)]),
            some(Kind::ERA, vec![to(0, 0)]),
            some(Kind::CON, vec![to(3, 0), free("a"), free("b")]),
            some(Kind::DUP, vec![to(2, 0), free("c"), free("d")]),
        ],
    };
    assert!(reduce(&mut net));
    assert!(net.nodes[0].is_none());
    assert!(net.nodes[1].is_none());
    assert!(!reduce(&mut net));
    assert_eq!(net.nodes.len(), 4);
}

#[test]
fn the_cycle_of_four_stops_at_its_con_dup_pair() {
    let mut net = nonterminating();
    for _ in 0..8 {
        assert!(!reduce(&mut net));
    }
    assert!(same_net(
        &net,
        &[
            some(Kind::CON, vec![to(1, 0), to(1, 2), to(2, 0)]),
            some(Kind::DUP, vec![to(0, 0), to(3, 0), to(0, 1)]),
            some(Kind::ERA, vec![to(0, 2)]),
            some(Kind::ERA, vec![to(1, 1)]),
        ]
    ));
    assert_eq!(reduce_all(&mut net), 0);
    assert_eq!(net.nodes.len(), 4);
}

#[test]
fn a_call_without_a_rewrite_is_followed_by_calls_without_one() {
    let mut net = trivial_commute_2();
    assert!(reduce(&mut net));
    for _ in 0..5 {
        assert!(!reduce(&mut net));
        assert!(same_net(
            &net,
            &[None, None, some(Kind::ERA, vec![free("a")]), some(Kind::ERA, vec![free("b")])]
        ));
    }
}

#[test]
fn markers_are_passed_over_by_the_scan() {
    let mut net = Net {
        nodes: vec![
            some(Kind::WIRE, vec![to(1, 0), to(2, 0)]),
            some(Kind::LOOP, vec![]),
            some(Kind::ERA, vec![to(3, 0)]),
            some(Kind::ERA, vec![to(2, 0)]),
        ],
    };
    assert!(reduce(&mut net));
    assert!(same_net(
        &net,
        &[some(Kind::WIRE, vec![to(1, 0), to(2, 0)]), some(Kind::LOOP, vec![]), None, None]
    ));
    assert!(!reduce(&mut net));
}

#[test]
fn an_agent_facing_a_marker_ends_the_scan() {
    let mut net = Net {
        nodes: vec![
            some(Kind::ERA, vec![to(1, 0)]),
            some(Kind::WIRE, vec![to(0, 0), free("w")]),
            some(Kind::ERA, vec![to(3, 0)]),
            some(Kind::ERA, vec![to(2, 0)]),
        ],
    };
    assert!(!reduce(&mut net));
    assert!(same_net(
        &net,
        &[
            some(Kind::ERA, vec![to(1, 0)]),
            some(Kind::WIRE, vec![to(0, 0), free("w")]),
            some(Kind::ERA, vec![to(3, 0)]),
            some(Kind::ERA, vec![to(2, 0)]),
        ]
    ));
}

#[test]
fn a_principal_port_on_an_auxiliary_port_is_no_active_pair() {
    let mut net = Net {
        nodes: vec![
            some(Kind::ERA, vec![to(1, 1)]),
            some(Kind::CON, vec![free("p"), to(0, 0), free("b")]),
        ],
    };
    assert!(agents_are_mirrored(&net));
    assert!(!reduce(&mut net));
    assert_eq!(reduce_all(&mut net), 0);
    assert_eq!(net.nodes.len(), 2);
}

#[test]
fn an_eraser_wired_to_itself_is_removed() {
    let mut net = Net { nodes: vec![some(Kind::ERA, vec![to(0, 0)])] };
    assert!(reduce(&mut net));
    assert!(same_net(&net, &[None]));
    assert!(!reduce(&mut net));
}

#[test]
fn annihilation_points_the_far_ends_at_the_new_wire() {
    let mut net = Net {
        nodes: vec![
            some(Kind::CON, vec![to(1, 0), to(2, 0), free("b")]),
            some(Kind::CON, vec![to(0, 0), free("c"), to(3, 0)]),
            some(Kind::ERA, vec![to(0, 1)]),
            some(Kind::ERA, vec![to(1, 2)]),
        ],
    };
    assert!(all_nodes_are_mirrored(&net));
    assert!(reduce(&mut net));
    assert!(same_net(
        &net,
        &[
            None,
            None,
            some(Kind::ERA, vec![to(4, 0)]),
            some(Kind::ERA, vec![to(4, 1)]),
            some(Kind::WIRE, vec![to(2, 0), to(3, 0)]),
            some(Kind::WIRE, vec![free("b"), free("c")]),
        ]
    ));
    assert!(all_nodes_are_mirrored(&net));
    assert!(!reduce(&mut net));
}

#[test]
fn commuting_an_agent_whose_auxiliaries_are_wired_together_breaks_the_mirror() {
    let mut net = Net {
        nodes: vec![
            some(Kind::CON, vec![to(1, 0), to(0, 2), to(0, 1)]),
            some(Kind::ERA, vec![to(0, 0)]),
        ],
    };
    assert!(agents_are_mirrored(&net));
    assert!(reduce(&mut net));
    assert!(same_net(
        &net,
        &[None, None, some(Kind::ERA, vec![to(3, 0)]), some(Kind::ERA, vec![to(0, 1)])]
    ));
    assert!(!agents_are_mirrored(&net));
    assert!(reduce(&mut net));
    assert!(same_net(&net, &[None, None, None, None]));
    assert!(!reduce(&mut net));
}

#[test]
fn rewrites_keep_every_node_mirrored() {
    let mut net = Net { nodes: vec![] };
    new_node(&mut net, Kind::CON, vec![to(1, 0), to(2, 1), to(3, 0)]);
    new_node(&mut net, Kind::CON, vec![to(0, 0), to(4, 0), to(2, 2)]);
    new_node(&mut net, Kind::DUP, vec![to(5, 0), to(0, 1), to(1, 2)]);
    new_node(&mut net, Kind::ERA, vec![to(0, 2)]);
    new_node(&mut net, Kind::ERA, vec![to(1, 1)]);
    new_node(&mut net, Kind::ERA, vec![to(2, 0)]);
    assert!(agents_are_mirrored(&net));
    let mut rewrites = 0;
    while reduce(&mut net) {
        rewrites += 1;
        assert!(all_nodes_are_mirrored(&net));
        assert!(rewrites <= 6);
    }
    assert_eq!(rewrites, 2);
    assert!(same_net(
        &net,
        &[
            None,
            None,
            None,
            some(Kind::ERA, vec![to(7, 0)]),
            some(Kind::ERA, vec![to(7, 1)]),
            None,
            some(Kind::WIRE, vec![to(8, 0), to(9, 0)]),
            some(Kind::WIRE, vec![to(3, 0), to(4, 0)]),
            some(Kind::ERA, vec![to(6, 0)]),
            some(Kind::ERA, vec![to(6, 1)]),
        ]
    ));
    assert!(all_nodes_are_mirrored(&net));
}

#[test]
fn annihilation_with_free_auxiliaries_keeps_the_markers_mirrored() {
    let mut net = trivial_annihilate_1();
    assert!(all_nodes_are_mirrored(&net));
    assert!(reduce(&mut net));
    assert!(all_nodes_are_mirrored(&net));
}

#[test]
fn annihilation_with_one_wired_auxiliary_reattaches_it() {
    let mut net = Net {
        nodes: vec![
            some(Kind::CON, vec![to(1, 0), to(2, 0), free("b")]),
            some(Kind::CON, vec![to(0, 0), free("c"), free("d")]),
            some(Kind::ERA, vec![to(0, 1)]),
        ],
    };
    assert!(all_nodes_are_mirrored(&net));
    assert!(reduce(&mut net));
    assert!(same_net(
        &net,
        &[
            None,
            None,
            some(Kind::ERA, vec![to(3, 0)]),
            some(Kind::WIRE, vec![to(2, 0), free("d")]),
            some(Kind::WIRE, vec![free("b"), free("c")]),
        ]
    ));
    assert!(all_nodes_are_mirrored(&net));
}

#[test]
fn commute_moves_a_wire_that_ends_on_a_marker() {
    let mut net = Net {
        nodes: vec![
            some(Kind::WIRE, vec![to(1, 1), free("w")]),
            some(Kind::DUP, vec![to(2, 0), to(0, 0), free("b")]),
            some(Kind::ERA, vec![to(1, 0)]),
        ],
    };
    assert!(all_nodes_are_mirrored(&net));
    assert!(reduce(&mut net));
    assert!(same_net(
        &net,
        &[
            some(Kind::WIRE, vec![to(3, 0), free("w")]),
            None,
            None,
            some(Kind::ERA, vec![to(0, 0)]),
            some(Kind::ERA, vec![free("b")]),
        ]
    ));
    assert!(all_nodes_are_mirrored(&net));
}

#[test]
fn auxiliaries_wired_across_the_pairs_leave_two_wires_and_keep_the_names() {
    let mut net = Net {
        nodes: vec![
            some(Kind::CON, vec![to(1, 0), to(1, 1), free("y")]),
            some(Kind::CON, vec![to(0, 0), to(0, 1), free("x")]),
        ],
    };
    assert!(all_nodes_are_mirrored(&net));
    assert!(reduce(&mut net));
    assert!(same_net(
        &net,
        &[
            None,
            None,
            some(Kind::WIRE, vec![to(3, 1), free("x")]),
            some(Kind::WIRE, vec![free("y"), to(2, 0)]),
        ]
    ));
    assert!(all_nodes_are_mirrored(&net));
    assert!(!reduce(&mut net));

    let mut net = Net {
        nodes: vec![
            some(Kind::CON, vec![to(1, 0), to(1, 1), free("y")]),
            some(Kind::CON, vec![to(0, 0), to(0, 1), free("x")]),
        ],
    };
    assert_eq!(reduce_all(&mut net), 1);
    assert!(same_net(
        &net,
        &[
            some(Kind::WIRE, vec![to(3, 1), free("x")]),
            some(Kind::WIRE, vec![free("y"), to(2, 0)]),
        ]
    ));
}

#[test]
fn a_loop_is_made_only_where_both_ports_of_a_pair_point_at_each_other() {
    let mut net = Net {
        nodes: vec![
            some(Kind::DUP, vec![to(1, 0), to(1, 2), to(1, 1)]),
            some(Kind::DUP, vec![to(0, 0), to(0, 2), to(0, 1)]),
        ],
    };
    assert!(all_nodes_are_mirrored(&net));
    assert!(reduce(&mut net));
    assert!(same_net(
        &net,
        &[
            None,
            None,
            some(Kind::WIRE, vec![to(3, 1), to(3, 0)]),
            some(Kind::WIRE, vec![to(2, 1), to(2, 0)]),
        ]
    ));
    assert!(all_nodes_are_mirrored(&net));
}

#[test]
fn auxiliaries_of_one_agent_wired_together_leave_two_wires_in_a_row() {
    let mut net = Net {
        nodes: vec![
            some(Kind::CON, vec![to(1, 0), to(0, 2), to(0, 1)]),
            some(Kind::CON, vec![to(0, 0), free("c"), free("d")]),
        ],
    };
    assert!(all_nodes_are_mirrored(&net));
    assert!(reduce(&mut net));
    assert!(same_net(
        &net,
        &[
            None,
            None,
            some(Kind::WIRE, vec![to(3, 0), free("d")]),
            some(Kind::WIRE, vec![to(2, 0), free("c")]),
        ]
    ));
    assert!(all_nodes_are_mirrored(&net));
}

#[test]
fn an_agent_annihilated_with_itself_leaves_a_wire_that_is_not_answered() {
    let mut net = Net {
        nodes: vec![
            some(Kind::DUP, vec![to(0, 0), to(1, 0), free("b")]),
            some(Kind::ERA, vec![to(0, 1)]),
        ],
    };
    assert!(all_nodes_are_mirrored(&net));
    assert!(reduce(&mut net));
    assert!(same_net(
        &net,
        &[
            None,
            some(Kind::ERA, vec![to(2, 1)]),
            some(Kind::WIRE, vec![to(1, 0), to(1, 0)]),
            some(Kind::WIRE, vec![free("b"), free("b")]),
        ]
    ));
    assert!(agents_are_mirrored(&net));
    assert!(!all_nodes_are_mirrored(&net));
}

#[test]
fn a_binary_agent_wired_to_itself_is_annihilated_with_itself() {
    let mut net = Net { nodes: vec![some(Kind::CON, vec![to(0, 0), free("a"), free("b")])] };
    assert!(reduce(&mut net));
    assert!(same_net(
        &net,
        &[
            None,
            some(Kind::WIRE, vec![free("a"), free("b")]),
            some(Kind::WIRE, vec![free("b"), free("a")]),
        ]
    ));
    assert!(!reduce(&mut net));
}

#[test]
fn every_rewrite_lowers_the_budget() {
    let mut net = Net {
        nodes: vec![
            some(Kind::CON, vec![to(1, 0), to(2, 0), to(3, 0)]),
            some(Kind::ERA, vec![to(0, 0)]),
            some(Kind::ERA, vec![to(0, 1)]),
            some(Kind::ERA, vec![to(0, 2)]),
            some(Kind::DUP, vec![to(5, 0), free("a"), free("b")]),
            some(Kind::DUP, vec![to(4, 0), free("c"), free("d")]),
        ],
    };
    assert_eq!(budget(&net), u32::MAX as u64);
    let mut spent = vec![];
    let mut before = budget(&net);
    while reduce(&mut net) {
        let after = budget(&net);
        assert!(after < before);
        spent.push(before - after);
        before = after;
    }
    assert_eq!(spent, vec![2, 2, 2, 4]);
}

#[test]
fn the_driver_makes_no_more_rewrites_than_the_budget() {
    let mut net = Net {
        nodes: vec![
            some(Kind::CON, vec![to(1, 0), to(2, 0), to(3, 0)]),
            some(Kind::ERA, vec![to(0, 0)]),
            some(Kind::ERA, vec![to(0, 1)]),
            some(Kind::ERA, vec![to(0, 2)]),
        ],
    };
    let bound = budget(&net);
    let rewrites = reduce_all(&mut net) as u64;
    assert_eq!(rewrites, 3);
    assert!(rewrites <= bound);
}

#[test]
fn a_dup_annihilated_with_itself_with_its_auxiliaries_wired_together() {
    let mut net = Net { nodes: vec![some(Kind::DUP, vec![to(0, 0), to(0, 2), to(0, 1)])] };
    assert!(all_nodes_are_mirrored(&net));
    assert!(reduce(&mut net));
    assert!(same_net(
        &net,
        &[
            None,
            some(Kind::WIRE, vec![to(0, 2), to(2, 1)]),
            some(Kind::WIRE, vec![to(1, 1), to(1, 1)]),
        ]
    ));
    assert!(agents_are_mirrored(&net));
    assert!(!all_nodes_are_mirrored(&net));
}

#[test]
fn a_con_annihilated_with_itself_with_a_port_wired_to_itself_stays_mirrored() {
    let mut net = Net { nodes: vec![some(Kind::CON, vec![to(0, 0), to(0, 1), free("b")])] };
    assert!(all_nodes_are_mirrored(&net));
    assert!(reduce(&mut net));
    assert!(same_net(
        &net,
        &[
            None,
            some(Kind::WIRE, vec![to(2, 1), free("b")]),
            some(Kind::WIRE, vec![free("b"), to(1, 0)]),
        ]
    ));
    assert!(all_nodes_are_mirrored(&net));
}

#[test]
fn a_con_annihilated_with_itself_with_its_auxiliaries_wired_together_leaves_loops() {
    let mut net = Net { nodes: vec![some(Kind::CON, vec![to(0, 0), to(0, 2), to(0, 1)])] };
    assert!(reduce(&mut net));
    assert!(same_net(&net, &[None, some(Kind::LOOP, vec![]), some(Kind::LOOP, vec![])]));
    assert!(all_nodes_are_mirrored(&net));
}

#[test]
fn an_annihilation_keeps_every_free_name_once() {
    let mut net = Net {
        nodes: vec![
            some(Kind::DUP, vec![to(1, 0), free("a"), to(2, 0)]),
            some(Kind::DUP, vec![to(0, 0), to(3, 1), free("d")]),
            some(Kind::ERA, vec![to(0, 2)]),
            some(Kind::CON, vec![free("p"), to(1, 1), free("q")]),
        ],
    };
    assert!(all_nodes_are_mirrored(&net));
    assert_eq!(reduce_all(&mut net), 1);
    assert!(same_net(
        &net,
        &[
            some(Kind::ERA, vec![to(5, 0)]),
            some(Kind::CON, vec![free("p"), to(4, 1), free("q")]),
            some(Kind::WIRE, vec![free("a"), to(3, 1)]),
            some(Kind::WIRE, vec![to(2, 0), free("d")]),
        ]
    ));
    let mut names = vec![];
    for slot in net.nodes.iter() {
        if let Some(node) = slot {
            for port in node.ports.iter() {
                if let Port::Free { name } = port {
                    names.push(name.clone());
                }
            }
        }
    }
    names.sort();
    assert_eq!(names, vec!["a", "d", "p", "q"]);
}

#[test]
fn a_port_wired_to_itself_leaves_a_pointer_to_the_removed_agent() {
    let mut net = Net {
        nodes: vec![
            some(Kind::CON, vec![to(1, 0), to(0, 1), free("b")]),
            some(Kind::ERA, vec![to(0, 0)]),
        ],
    };
    assert!(all_nodes_are_mirrored(&net));
    assert!(reduce(&mut net));
    assert!(same_net(
        &net,
        &[None, None, some(Kind::ERA, vec![to(0, 1)]), some(Kind::ERA, vec![free("b")])]
    ));
    assert!(all_nodes_are_mirrored(&net));
    assert!(!reduce(&mut net));
}
