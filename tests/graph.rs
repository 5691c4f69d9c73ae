use rebos::graph::has_cycle;

#[test]
fn chain_has_no_cycle() {
    assert!(!has_cycle(&vec![vec![1], vec![2], vec![]]));
}

#[test]
fn loop_of_three_is_a_cycle() {
    assert!(has_cycle(&vec![vec![1], vec![2], vec![0]]));
}

#[test]
fn self_loop_is_a_cycle() {
    assert!(has_cycle(&vec![vec![], vec![1]]));
}

#[test]
fn diamond_has_no_cycle() {
    assert!(!has_cycle(&vec![vec![1, 2], vec![3], vec![3], vec![]]));
}

#[test]
fn empty_graph_has_no_cycle() {
    assert!(!has_cycle(&Vec::new()));
}
