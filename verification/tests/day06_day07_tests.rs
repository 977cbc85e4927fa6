use intcode::day06::{build_tree, get_node_children_names, get_sum_tree_step, parse_identifiers};
use intcode::day07::{get_all_combinations_settings, AmplifierChain, AmplifierChainMode};

fn to_pairs(v: Vec<(&str, &str)>) -> Vec<(String, String)> {
    v.into_iter()
        .map(|(left, right)| (left.to_string(), right.to_string()))
        .collect::<Vec<(String, String)>>()
}

#[test]
fn test_parse_identifiers() {
    assert_eq!(
        parse_identifiers("A)B".to_string()),
        ("A".to_string(), "B".to_string())
    );
    assert_eq!(
        parse_identifiers("AA)AB".to_string()),
        ("AA".to_string(), "AB".to_string())
    );
}

#[test]
fn test_macro_vec_tuple_str_to_vec_tuple_string() {
    let a = vec![("A", "B"), ("D", "E")];
    let b = vec![
        ("A".to_string(), "B".to_string()),
        ("D".to_string(), "E".to_string()),
    ];
    assert_eq!(to_pairs(a), b);
}

#[test]
fn test_build_tree() {
    let configuration = to_pairs(vec![("B", "C"), ("A", "D"), ("A", "B"), ("A", "E")]);

    let empty: Vec<String> = Vec::new();
    let tree = build_tree(configuration).unwrap();

    let children_names = get_node_children_names(&tree, &"A".to_string());
    assert_eq!(vec!["D", "B", "E"], children_names);
    let children_names = get_node_children_names(&tree, &"B".to_string());
    assert_eq!(vec!["C"], children_names);
    let children_names = get_node_children_names(&tree, &"C".to_string());
    assert_eq!(empty, children_names);
    let children_names = get_node_children_names(&tree, &"D".to_string());
    assert_eq!(empty, children_names);
}

#[test]
fn test_get_sum_tree_steps() {
    let configuration = to_pairs(vec![
        ("ROOT", "A"),
        ("A", "B"),
        ("A", "C"),
        ("C", "D"),
        ("C", "E"),
    ]);

    let tree = build_tree(configuration).unwrap();
    assert_eq!(get_sum_tree_step(&tree, "ROOT".to_string(), 0, 0).unwrap(), 11);

    let configuration = to_pairs(vec![
        ("COM", "B"),
        ("B", "C"),
        ("C", "D"),
        ("D", "E"),
        ("E", "F"),
        ("B", "G"),
        ("G", "H"),
        ("D", "I"),
        ("E", "J"),
        ("J", "K"),
        ("K", "L"),
    ]);

    let tree = build_tree(configuration).unwrap();
    assert_eq!(get_sum_tree_step(&tree, "COM".to_string(), 0, 0).unwrap(), 42);
}

#[test]
fn test_orbit_count_from_configuration() {
    let configuration = to_pairs(vec![("COM", "B"), ("B", "C")]);
    assert_eq!(intcode::day06::part_1(configuration), Some(3));
}

#[test]
fn test_cycle_is_refused() {
    let configuration = to_pairs(vec![("A", "B"), ("B", "A")]);
    assert!(build_tree(configuration).is_none());
    let configuration = to_pairs(vec![("A", "A")]);
    assert!(build_tree(configuration).is_none());
}

#[test]
fn test_get_all_combination_settings() {
    let data = &[1, 2, 3, 4];
    assert_eq!(23, get_all_combinations_settings(data).len());
}

#[test]
fn test_permutations_reorder() {
    // Two elements have exactly one other ordering, and it differs from
    // the input.
    let result = get_all_combinations_settings(&[1, 2]);
    assert_eq!(result, vec![vec![2, 1]]);
}

#[test]
fn test_amplifier_chain() {
    let program = vec![3, 15, 3, 16, 1002, 16, 10, 16, 1, 16, 15, 15, 4, 15, 99, 0, 0];
    let settings = vec![4, 3, 2, 1, 0];
    let mut amplifier_chains = AmplifierChain::new(settings, program, AmplifierChainMode::Linear);
    let result = amplifier_chains.run(0).unwrap();
    assert_eq!(result, 43210);

    let program = vec![
        3, 23, 3, 24, 1002, 24, 10, 24, 1002, 23, -1, 23, 101, 5, 23, 23, 1, 24, 23, 23, 4, 23,
        99, 0, 0,
    ];
    let settings = vec![0, 1, 2, 3, 4];
    let mut amplifier_chains = AmplifierChain::new(settings, program, AmplifierChainMode::Linear);
    let result = amplifier_chains.run(0).unwrap();
    assert_eq!(54321, result);

    let program = vec![
        3, 31, 3, 32, 1002, 32, 10, 32, 1001, 31, -2, 31, 1007, 31, 0, 33, 1002, 33, 7, 33, 1, 33,
        31, 31, 1, 32, 31, 31, 4, 31, 99, 0, 0, 0,
    ];
    let settings = vec![1, 0, 4, 3, 2];
    let mut amplifier_chains = AmplifierChain::new(settings, program, AmplifierChainMode::Linear);
    let result = amplifier_chains.run(0).unwrap();
    assert_eq!(65210, result);
}

#[test]
fn test_amplifier_feedback_chain() {
    let program = vec![
        3, 26, 1001, 26, -4, 26, 3, 27, 1002, 27, 2, 27, 1, 27, 26, 27, 4, 27, 1001, 28, -1, 28,
        1005, 28, 6, 99, 0, 0, 5,
    ];
    let settings = vec![9, 8, 7, 6, 5];
    let mut amplifier_chain = AmplifierChain::new(settings, program, AmplifierChainMode::Feedback);
    let result = amplifier_chain.run(0).unwrap();
    assert_eq!(result, 139629729);

    let program = vec![
        3, 52, 1001, 52, -5, 52, 3, 53, 1, 52, 56, 54, 1007, 54, 5, 55, 1005, 55, 26, 1001, 54,
        -5, 54, 1105, 1, 12, 1, 53, 54, 53, 1008, 54, 0, 55, 1001, 55, 1, 55, 2, 53, 55, 53, 4,
        53, 1001, 56, -1, 56, 1005, 56, 6, 99, 0, 0, 0, 0, 10,
    ];
    let settings = vec![9, 7, 8, 5, 6];
    let mut amplifier_chain = AmplifierChain::new(settings, program, AmplifierChainMode::Feedback);
    let result = amplifier_chain.run(0).unwrap();
    assert_eq!(result, 18216);
}

#[test]
fn test_optimized_chain_searches() {
    let program = vec![3, 15, 3, 16, 1002, 16, 10, 16, 1, 16, 15, 15, 4, 15, 99, 0, 0];
    let best = intcode::day07::part_1(program).unwrap();
    assert_eq!(best, 43210);
}
