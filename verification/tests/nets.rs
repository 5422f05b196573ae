use inet::{
    nonterminating, test_annihilate_2, trivial_annihilate_1, trivial_annihilate_2,
    trivial_annihilate_3, trivial_commute_1, trivial_commute_2, trivial_commute_3, Kind, Net, Port,
};

fn describe(port: &Port) -> String {
    match port {
        Port::Pointer { index, slot } => format!("{}.{}", index, slot),
        Port::Free { name } => format!("'{}'", name),
    }
}

fn render(net: &Net) -> Vec<String> {
    let mut lines = vec![];
    for slot in net.nodes.iter() {
        match slot {
            Some(node) => {
                let ports: Vec<String> = node.ports.iter().map(describe).collect();
                lines.push(format!("{:?} {}", node.kind, ports.join(" ")));
            }
            None => lines.push(String::from("-")),
        }
    }
    lines
}

#[test]
fn trivial_commute_1_is_a_con_facing_a_dup() {
    assert_eq!(render(&trivial_commute_1()), vec!["CON 1.0 'a' 'b'", "DUP 0.0 'c' 'd'"]);
}

#[test]
fn trivial_commute_2_is_a_con_facing_an_eraser() {
    assert_eq!(render(&trivial_commute_2()), vec!["CON 1.0 'a' 'b'", "ERA 0.0"]);
}

#[test]
fn trivial_commute_3_is_a_dup_facing_an_eraser() {
    assert_eq!(render(&trivial_commute_3()), vec!["DUP 1.0 'a' 'b'", "ERA 0.0"]);
}

#[test]
fn trivial_annihilate_1_is_two_cons() {
    assert_eq!(render(&trivial_annihilate_1()), vec!["CON 1.0 'a' 'b'", "CON 0.0 'c' 'd'"]);
}

#[test]
fn trivial_annihilate_2_is_two_dups() {
    assert_eq!(render(&trivial_annihilate_2()), vec!["DUP 1.0 'a' 'b'", "DUP 0.0 'c' 'd'"]);
}

#[test]
fn test_annihilate_2_is_two_dups_wired_twice() {
    assert_eq!(render(&test_annihilate_2()), vec!["DUP 1.0 'a' 1.2", "DUP 0.0 'c' 0.2"]);
}

#[test]
fn trivial_annihilate_3_is_two_erasers() {
    assert_eq!(render(&trivial_annihilate_3()), vec!["ERA 1.0", "ERA 0.0"]);
}

#[test]
fn nonterminating_is_a_cycle_of_four() {
    assert_eq!(
        render(&nonterminating()),
        vec!["CON 1.0 1.2 2.0", "DUP 0.0 3.0 0.1", "ERA 0.2", "ERA 1.1"]
    );
}

#[test]
fn kinds_compare_by_variant() {
    assert_eq!(Kind::CON, Kind::CON);
    assert_ne!(Kind::CON, Kind::DUP);
    assert_ne!(Kind::WIRE, Kind::LOOP);
    let copy = Kind::ERA;
    assert_eq!(copy, Kind::ERA);
}
