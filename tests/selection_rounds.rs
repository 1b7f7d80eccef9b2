use proxrs::selection::{get_all_tested_nodes, get_stable_tested_nodes, get_top_node, Round};

fn round(pairs: &[(&str, u64)]) -> Round {
    pairs.iter().map(|(n, l)| (n.to_string(), *l)).collect()
}

#[test]
fn test_get_stable_nodes() {
    let test_data = vec![
        round(&[("node1", 100), ("node2", 200), ("node3", 150)]),
        round(&[("node1", 110), ("node2", 190), ("node3", 160)]),
        round(&[("node1", 120), ("node3", 10000)]),
    ];
    println!("{:?}", get_top_node(&test_data));
    assert_eq!(get_top_node(&test_data), Some("node1".to_string()));
    assert_eq!(
        get_stable_tested_nodes(&test_data),
        vec!["node1".to_string(), "node2".to_string(), "node3".to_string()]
    );
}

#[test]
fn aggregation_of_three_rounds() {
    let rounds = vec![
        round(&[("A", 100), ("B", 200)]),
        round(&[("A", 110), ("B", 190)]),
        round(&[("A", 120)]),
    ];
    assert_eq!(get_all_tested_nodes(&rounds), vec!["A".to_string(), "B".to_string()]);
    assert_eq!(get_top_node(&rounds), Some("A".to_string()));
}

#[test]
fn no_rounds_no_best_node() {
    let rounds: Vec<Round> = vec![];
    assert_eq!(get_top_node(&rounds), None);
    assert!(get_all_tested_nodes(&rounds).is_empty());
    let rounds: Vec<Round> = vec![vec![], vec![]];
    assert_eq!(get_top_node(&rounds), None);
}

#[test]
fn equal_means_keep_first_seen() {
    let rounds = vec![round(&[("B", 150), ("A", 150)]), round(&[("A", 150)])];
    assert_eq!(get_top_node(&rounds), Some("B".to_string()));
}

#[test]
fn mean_is_truncated() {
    // A: (100 + 101) / 2 = 100; B: 100.
    let rounds = vec![round(&[("B", 100), ("A", 100)]), round(&[("A", 101)])];
    assert_eq!(get_top_node(&rounds), Some("B".to_string()));
    let rounds = vec![round(&[("B", 101), ("A", 100)]), round(&[("A", 101)])];
    assert_eq!(get_top_node(&rounds), Some("A".to_string()));
}

#[test]
fn stable_nodes_need_more_than_half() {
    // Four nodes seen: a node needs more than two samples.
    let rounds = vec![
        round(&[("A", 300), ("B", 10), ("C", 50), ("D", 5)]),
        round(&[("A", 300), ("B", 10), ("C", 50)]),
        round(&[("A", 300), ("C", 40)]),
    ];
    assert_eq!(
        get_stable_tested_nodes(&rounds),
        vec!["C".to_string(), "A".to_string()]
    );
}

#[test]
fn stable_nodes_with_equal_means_keep_first_seen() {
    let rounds = vec![
        round(&[("X", 70), ("Y", 50), ("Z", 50)]),
        round(&[("Z", 50), ("X", 70), ("Y", 50)]),
    ];
    assert_eq!(
        get_stable_tested_nodes(&rounds),
        vec!["Y".to_string(), "Z".to_string(), "X".to_string()]
    );
}
