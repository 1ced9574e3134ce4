use rule_search::op_node::Op;
use rule_search::op_node::OpNode;

#[test]
fn test_variable_cluster() {
    let mut leaf_node = OpNode::new(0, 0);
    let mut result = leaf_node.get_clustered_variables();
    assert_eq!(result.len(), 1);
    assert_eq!(result[0].len(), 1);
    assert_eq!(result[0][0], 0);

    leaf_node.generate_next();
    result = leaf_node.get_clustered_variables();
    assert_eq!(result.len(), 1);
    assert_eq!(result[0].len(), 1);
    assert_eq!(result[0][0], 0);

    let two_var_node = OpNode::new(0, 1);
    result = two_var_node.get_clustered_variables();
    assert_eq!(result.len(), 1);
    assert_eq!(result[0].len(), 2);
    assert_eq!(result[0][0], 0);
    assert_eq!(result[0][1], 1);

    let mut three_var_node = OpNode::new(0, 2);
    result = three_var_node.get_clustered_variables();
    assert_eq!(result.len(), 1);
    assert_eq!(result[0].len(), 3);
    assert_eq!(result[0][0], 0);
    assert_eq!(result[0][1], 1);
    assert_eq!(result[0][2], 2);

    // trigger a change in structure from (x0 & x1 & x2) to x0 & (x1 | x2)
    for _ in 0..8 {
        three_var_node.generate_next();
    }
    result = three_var_node.get_clustered_variables();
    assert_eq!(result.len(), 2);
    assert_eq!(result[0].len(), 2);
    assert_eq!(result[1].len(), 1);
    assert_eq!(result[0][0], 1);
    assert_eq!(result[0][1], 2);
    assert_eq!(result[1][0], 0);

    for _ in 0..8 {
        three_var_node.generate_next();
    }
    result = three_var_node.get_clustered_variables();
    assert_eq!(result.len(), 2);
    assert_eq!(result[0].len(), 2);
    assert_eq!(result[1].len(), 1);
    assert_eq!(result[0][0], 1);
    assert_eq!(result[0][1], 2);
    assert_eq!(result[1][0], 0);

    for _ in 0..8 {
        three_var_node.generate_next();
    }
    result = three_var_node.get_clustered_variables();
    assert_eq!(result.len(), 1);
    assert_eq!(result[0].len(), 3);
    assert_eq!(result[0][0], 0);
    assert_eq!(result[0][1], 1);
    assert_eq!(result[0][2], 2);

    for _ in 0..8 {
        three_var_node.generate_next();
    }
    result = three_var_node.get_clustered_variables();
    assert_eq!(result.len(), 1);
    assert_eq!(result[0].len(), 3);
    assert_eq!(result[0][0], 0);
    assert_eq!(result[0][1], 1);
    assert_eq!(result[0][2], 2);

    for _ in 0..8 {
        three_var_node.generate_next();
    }
    result = three_var_node.get_clustered_variables();
    assert_eq!(result.len(), 1);
    assert_eq!(result[0].len(), 3);
    assert_eq!(result[0][0], 0);
    assert_eq!(result[0][1], 1);
    assert_eq!(result[0][2], 2);

    for _ in 0..8 {
        three_var_node.generate_next();
    }
    result = three_var_node.get_clustered_variables();
    assert_eq!(result.len(), 2);
    assert_eq!(result[0].len(), 2);
    assert_eq!(result[1].len(), 1);
    assert_eq!(result[0][0], 0);
    assert_eq!(result[0][1], 1);
    assert_eq!(result[1][0], 2);

    // ( ( 0 & ( 1 | 2 ) ) & ( !3 | 4 ) ), built from two advanced subtrees
    let mut four_node_left_child = OpNode::new(0, 2);
    for _ in 0..8 {
        four_node_left_child.generate_next();
    }
    let mut four_node_right_child = OpNode::new(3, 4);
    for _ in 0..5 {
        four_node_right_child.generate_next();
    }
    let four_node = OpNode::with_children(Op::And, four_node_left_child, four_node_right_child);
    result = four_node.get_clustered_variables();

    assert_eq!(result.len(), 3);
    assert_eq!(result[0].len(), 2);
    assert_eq!(result[1].len(), 2);
    assert_eq!(result[2].len(), 1);
}

#[test]
fn test_op_node_eval() {
    let mut leaf_node = OpNode::new(0, 0);

    assert_eq!(leaf_node.evaluate(&vec![true], true), true);
    leaf_node.generate_next();
    assert_eq!(leaf_node.evaluate(&vec![true], true), false);

    let mut two_var_node = OpNode::new(0, 1);

    // identity AND identity
    assert_eq!(two_var_node.evaluate(&vec![true, true], true), true);
    assert_eq!(two_var_node.evaluate(&vec![true, false], true), false);
    assert_eq!(two_var_node.evaluate(&vec![false, true], true), false);
    assert_eq!(two_var_node.evaluate(&vec![false, false], true), false);

    // not AND identity
    two_var_node.generate_next();
    assert_eq!(two_var_node.evaluate(&vec![true, true], true), false);
    assert_eq!(two_var_node.evaluate(&vec![true, false], true), false);
    assert_eq!(two_var_node.evaluate(&vec![false, true], true), true);
    assert_eq!(two_var_node.evaluate(&vec![false, false], true), false);

    // identity AND not
    two_var_node.generate_next();
    assert_eq!(two_var_node.evaluate(&vec![true, true], true), false);
    assert_eq!(two_var_node.evaluate(&vec![true, false], true), true);
    assert_eq!(two_var_node.evaluate(&vec![false, true], true), false);
    assert_eq!(two_var_node.evaluate(&vec![false, false], true), false);

    // not AND not
    two_var_node.generate_next();
    assert_eq!(two_var_node.evaluate(&vec![true, true], true), false);
    assert_eq!(two_var_node.evaluate(&vec![true, false], true), false);
    assert_eq!(two_var_node.evaluate(&vec![false, true], true), false);
    assert_eq!(two_var_node.evaluate(&vec![false, false], true), true);

    // switch to OR
    // identity OR identity
    two_var_node.generate_next();
    assert_eq!(two_var_node.evaluate(&vec![true, true], true), true);
    assert_eq!(two_var_node.evaluate(&vec![true, false], true), true);
    assert_eq!(two_var_node.evaluate(&vec![false, true], true), true);
    assert_eq!(two_var_node.evaluate(&vec![false, false], true), false);

    // not OR identity
    two_var_node.generate_next();
    assert_eq!(two_var_node.evaluate(&vec![true, true], true), true);
    assert_eq!(two_var_node.evaluate(&vec![true, false], true), false);
    assert_eq!(two_var_node.evaluate(&vec![false, true], true), true);
    assert_eq!(two_var_node.evaluate(&vec![false, false], true), true);

    // identity OR not
    two_var_node.generate_next();
    assert_eq!(two_var_node.evaluate(&vec![true, true], true), true);
    assert_eq!(two_var_node.evaluate(&vec![true, false], true), true);
    assert_eq!(two_var_node.evaluate(&vec![false, true], true), false);
    assert_eq!(two_var_node.evaluate(&vec![false, false], true), true);

    // not OR not
    two_var_node.generate_next();
    assert_eq!(two_var_node.evaluate(&vec![true, true], true), false);
    assert_eq!(two_var_node.evaluate(&vec![true, false], true), true);
    assert_eq!(two_var_node.evaluate(&vec![false, true], true), true);
    assert_eq!(two_var_node.evaluate(&vec![false, false], true), true);
}

#[test]
fn test_op_node_generate() {
    let mut leaf_node = OpNode::new(0, 0);

    test_leaf_node(&mut leaf_node, 0);

    let mut and_node = OpNode::new(0, 1);

    assert_eq!(and_node.operation(), Op::And);
    assert_eq!(and_node.start_index(), 0);
    assert_eq!(and_node.end_index(), 1);

    assert!(and_node.left_child().is_some());
    assert!(and_node.right_child().is_some());

    let mut and_node_left_child = OpNode::new(0, 0);
    let mut and_node_right_child = OpNode::new(1, 1);

    test_leaf_node(&mut and_node_left_child, 0);
    test_leaf_node(&mut and_node_right_child, 1);

    // being made Or here
    assert_eq!(and_node.has_next(), true);

    and_node.generate_next();
    assert_eq!(and_node.operation(), Op::And);
    assert_eq!(and_node.has_next(), true);
    assert_eq!(and_node.left_child().as_ref().unwrap().operation(), Op::Not);
    assert_eq!(and_node.right_child().as_ref().unwrap().operation(), Op::Identity);

    and_node.generate_next();
    assert_eq!(and_node.operation(), Op::And);
    assert_eq!(and_node.has_next(), true);
    assert_eq!(and_node.left_child().as_ref().unwrap().operation(), Op::Identity);
    assert_eq!(and_node.right_child().as_ref().unwrap().operation(), Op::Not);

    and_node.generate_next();
    assert_eq!(and_node.operation(), Op::And);
    assert_eq!(and_node.has_next(), true);
    assert_eq!(and_node.left_child().as_ref().unwrap().operation(), Op::Not);
    assert_eq!(and_node.right_child().as_ref().unwrap().operation(), Op::Not);

    and_node.generate_next();
    assert_eq!(and_node.operation(), Op::Or);
    assert_eq!(and_node.has_next(), true);
    assert_eq!(and_node.left_child().as_ref().unwrap().operation(), Op::Identity);
    assert_eq!(and_node.right_child().as_ref().unwrap().operation(), Op::Identity);

    let mut three_child_node = OpNode::new(0, 2);

    let mut counter = 1;
    while three_child_node.has_next() {
        three_child_node.generate_next();
        counter += 1;
    }

    assert_eq!(counter, 64);
}

fn test_leaf_node(node: &mut OpNode, expected_index: usize) {
    assert_eq!(node.start_index(), expected_index);
    assert_eq!(node.end_index(), expected_index);
    assert!(node.left_child().is_none());
    assert!(node.right_child().is_none());
    if node.has_next() {
        assert_eq!(node.operation(), Op::Identity);
        node.generate_next();
        assert_eq!(node.has_next(), false);
        assert_eq!(node.operation(), Op::Not);
    } else {
        assert_eq!(node.operation(), Op::Not);
    }
}

#[test]
fn test_single_leaf_reaches_exactly_two_formulas() {
    let mut node = OpNode::new(0, 0);
    let mut count = 1;
    while node.has_next() {
        node.generate_next();
        count += 1;
    }
    assert_eq!(count, 2);
    assert_eq!(node.has_next(), false);
}

#[test]
fn test_evaluate_is_pure() {
    let mut node = OpNode::new(0, 2);
    for _ in 0..13 {
        node.generate_next();
    }
    let values = vec![true, false, true];
    let first = node.evaluate(&values, true);
    let second = node.evaluate(&values, true);
    assert_eq!(first, second);
    let third = node.evaluate(&values, false);
    let fourth = node.evaluate(&values, false);
    assert_eq!(third, fourth);
}
