use trapper::markov::Markov;

#[test]
fn building_markov() {
    let mut markov = Markov::new();

    markov.add_sequence("a b".to_string()).unwrap();
    markov.add_sequence("a c".to_string()).unwrap();
    markov.add_sequence("a b".to_string()).unwrap();

    assert_eq!(markov.node_count(), 4);
    assert_eq!(markov.outgoing(&"".to_string()), vec![("a".to_string(), 3)]);
    assert_eq!(
        markov.outgoing(&"a".to_string()),
        vec![("b".to_string(), 2), ("c".to_string(), 1)]
    );
    assert_eq!(markov.outgoing(&"b".to_string()), vec![("".to_string(), 2)]);
    assert_eq!(markov.outgoing(&"c".to_string()), vec![("".to_string(), 1)]);
}

#[test]
fn generate_test() {
    let mut markov = Markov::new();

    markov.add_sequence("a b c".to_string()).unwrap();
    assert_eq!(markov.get_random(), Some("a b c".to_string()));
}

#[test]
fn null_test() {
    let markov = Markov::new();
    assert_eq!(markov.get_random(), None);
}

#[test]
fn markov_learning_and_sampling() {
    let mut markov = Markov::new();
    markov.add_sequence("a b".to_string()).unwrap();
    markov.add_sequence("a c".to_string()).unwrap();
    markov.add_sequence("a b".to_string()).unwrap();

    // outgoing weights from "a" are b:2 and c:1, so every generated
    // sentence is one of the two learned ones
    for _ in 0..32 {
        let s = markov.get_random().unwrap();
        assert!(s == "a b" || s == "a c");
    }
}

#[test]
fn markov_whitespace_and_empty() {
    let mut markov = Markov::new();
    markov.add_sequence("  a   b  ".to_string()).unwrap();
    assert_eq!(markov.outgoing(&"a".to_string()), vec![("b".to_string(), 1)]);
    assert_eq!(markov.get_random(), Some("a b".to_string()));

    // learning the empty message teaches only the sentinel self-loop, and
    // a walk from it yields the empty sentence
    let mut empty = Markov::new();
    empty.add_sequence("".to_string()).unwrap();
    assert_eq!(empty.node_count(), 1);
    assert_eq!(empty.get_random(), Some("".to_string()));
}

#[test]
fn weighted_selection() {
    // the edge windows are [0, 2) for "b" and [2, 3) for "c", so each
    // draw selects the edge whose window contains it
    let es = vec![("b".to_string(), 2u64), ("c".to_string(), 1u64)];
    assert_eq!(Markov::pick_edge(&es, 0), 0);
    assert_eq!(Markov::pick_edge(&es, 1), 0);
    assert_eq!(Markov::pick_edge(&es, 2), 1);
}
