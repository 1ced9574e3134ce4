use rule_search::permuter::Permuter;
use rule_search::set_permuter::SetPermuter;
use rule_search::vector_permuter::VectorPermuter;

#[test]
fn test_permuter_empty() {
    let permuter = Permuter::new(vec![]);
    assert_eq!(permuter.has_next(), false);
}

#[test]
fn test_permuter_three_literals_one_set() {
    let permuter = Permuter::new(vec![vec![0, 1, 2]]);
    assert_eq!(permuter.get_sequence(), vec![0, 1, 2]);
    assert_eq!(permuter.has_next(), false);
}

#[test]
fn test_permuter_three_literals_two_set() {
    let mut permuter = Permuter::new(vec![vec![0, 1], vec![2]]);
    assert_eq!(permuter.get_sequence(), vec![0, 1, 2]);

    assert_eq!(permuter.has_next(), true);
    permuter.generate_next();
    assert_eq!(permuter.get_sequence(), vec![2, 1, 0]);

    assert_eq!(permuter.has_next(), true);
    permuter.generate_next();
    assert_eq!(permuter.get_sequence(), vec![0, 2, 1]);

    assert_eq!(permuter.has_next(), false);

    permuter = Permuter::new(vec![vec![0], vec![1, 2]]);
    assert_eq!(permuter.get_sequence(), vec![0, 1, 2]);

    assert_eq!(permuter.has_next(), true);
    permuter.generate_next();
    assert_eq!(permuter.get_sequence(), vec![1, 0, 2]);

    assert_eq!(permuter.has_next(), true);
    permuter.generate_next();
    assert_eq!(permuter.get_sequence(), vec![2, 1, 0]);

    assert_eq!(permuter.has_next(), false);
}

#[test]
fn test_permuter_four_literals() {
    let mut permuter = Permuter::new(vec![vec![0, 1], vec![2, 3]]);
    assert_eq!(permuter.get_sequence(), vec![0, 1, 2, 3]);

    assert_eq!(permuter.has_next(), true);
    permuter.generate_next();
    assert_eq!(permuter.get_sequence(), vec![2, 1, 0, 3]);

    assert_eq!(permuter.has_next(), true);
    permuter.generate_next();
    assert_eq!(permuter.get_sequence(), vec![2, 3, 0, 1]);

    assert_eq!(permuter.has_next(), true);
    permuter.generate_next();
    assert_eq!(permuter.get_sequence(), vec![3, 1, 2, 0]);

    assert_eq!(permuter.has_next(), true);
    permuter.generate_next();
    assert_eq!(permuter.get_sequence(), vec![3, 0, 2, 1]);

    assert_eq!(permuter.has_next(), true);
    permuter.generate_next();
    assert_eq!(permuter.get_sequence(), vec![0, 2, 1, 3]);

    assert_eq!(permuter.has_next(), true);
    permuter.generate_next();
    assert_eq!(permuter.get_sequence(), vec![0, 3, 2, 1]);

    assert_eq!(permuter.has_next(), false);
}

#[test]
fn test_permuter_reset_restarts_at_identity() {
    let mut permuter = Permuter::new(vec![vec![0, 1], vec![2]]);
    permuter.generate_next();
    assert_eq!(permuter.get_sequence(), vec![2, 1, 0]);

    permuter.reset(vec![vec![0], vec![1], vec![2]]);
    assert_eq!(permuter.get_sequence(), vec![0, 1, 2]);
    assert_eq!(permuter.has_next(), true);
}

#[test]
fn test_generate_set_permutations() {
    let mut permuter = SetPermuter::new(vec![vec![0, 1], vec![2, 3, 4]]);

    assert_eq!(permuter.get_vector(), vec![0, 1, 2, 3, 4]);
    while permuter.has_next() {
        permuter.generate_next();
    }
    assert_eq!(permuter.has_next(), false);
}

#[test]
fn test_vector_permutation() {
    let mut permuter = VectorPermuter::new(4);
    assert_eq!(permuter.get_vector(), vec![0, 1, 2, 3]);
    let ordered_vecs = vec![
        vec![1, 0, 2, 3],
        vec![1, 2, 0, 3],
        vec![1, 2, 3, 0],
        vec![1, 3, 2, 0],
        vec![1, 3, 0, 2],
        vec![1, 0, 3, 2],
        vec![2, 1, 0, 3],
        vec![2, 0, 1, 3],
        vec![2, 0, 3, 1],
        vec![2, 3, 0, 1],
        vec![2, 3, 1, 0],
        vec![2, 1, 3, 0],
        vec![3, 1, 2, 0],
        vec![3, 2, 1, 0],
        vec![3, 2, 0, 1],
        vec![3, 0, 2, 1],
        vec![3, 0, 1, 2],
        vec![3, 1, 0, 2],
        vec![0, 2, 1, 3],
        vec![0, 2, 3, 1],
        vec![0, 3, 2, 1],
        vec![0, 3, 1, 2],
        vec![0, 1, 3, 2],
    ];

    for v in ordered_vecs {
        assert_eq!(permuter.has_next(), true);
        permuter.generate_next();
        assert_eq!(permuter.get_vector(), v);
    }
}
