use markov_chain::{GenerationError, Node};
use rand::rngs::StdRng;
use rand::SeedableRng;

fn node_with(edges: &[(&str, i32)]) -> Node {
    let mut node = Node::new();
    for (word, weight) in edges {
        for _ in 0..*weight {
            node.strengthen_edge(word.to_string());
        }
    }
    node
}

#[test]
fn new_node_has_no_edges() {
    let node = Node::new();
    assert_eq!(node.len(), 0);
    assert_eq!(node.total_weight(), 0);
    assert_eq!(node.weight("cat"), 0);
}

#[test]
fn strengthen_edge_counts_sightings() {
    let mut node = Node::new();
    node.strengthen_edge("A".to_string());
    assert_eq!(node.weight("A"), 1);
    assert_eq!(node.total_weight(), 1);
    node.strengthen_edge("B".to_string());
    node.strengthen_edge("B".to_string());
    node.strengthen_edge("A".to_string());
    node.strengthen_edge("B".to_string());
    assert_eq!(node.len(), 2);
    assert_eq!(node.successor(0), "A");
    assert_eq!(node.successor(1), "B");
    assert_eq!(node.weight("A"), 2);
    assert_eq!(node.weight("B"), 3);
    assert_eq!(node.weight("C"), 0);
    assert_eq!(node.total_weight(), 5);
}

#[test]
fn total_weight_is_sum_of_weights() {
    let mut node = Node::new();
    let words = ["a", "b", "a", "c", "c", "c", "d", "a", "b", "e"];
    for (seen, word) in words.iter().enumerate() {
        node.strengthen_edge(word.to_string());
        let mut sum = 0;
        for i in 0..node.len() {
            sum += node.weight(node.successor(i));
        }
        assert_eq!(node.total_weight(), sum);
        assert_eq!(node.total_weight(), seen as i32 + 1);
    }
}

#[test]
fn pick_follows_the_running_sum() {
    let node = node_with(&[("A", 1), ("B", 3), ("C", 2)]);
    assert_eq!(node.pick(1), "A");
    assert_eq!(node.pick(2), "B");
    assert_eq!(node.pick(3), "B");
    assert_eq!(node.pick(4), "B");
    assert_eq!(node.pick(5), "C");
    assert_eq!(node.pick(6), "C");
}

#[test]
fn every_draw_picks_by_weight() {
    let node = node_with(&[("A", 1), ("B", 3)]);
    let mut a = 0;
    let mut b = 0;
    for draw in 1..=node.total_weight() {
        match node.pick(draw).as_str() {
            "A" => a += 1,
            "B" => b += 1,
            other => panic!("picked {:?}", other),
        }
    }
    assert_eq!((a, b), (1, 3));
}

#[test]
fn next_samples_in_proportion_to_weight() {
    let node = node_with(&[("A", 1), ("B", 3)]);
    let mut rng = StdRng::seed_from_u64(2024);
    let samples = 40_000;
    let mut b = 0;
    for _ in 0..samples {
        match node.next(&mut rng).unwrap().as_str() {
            "A" => {}
            "B" => b += 1,
            other => panic!("drew {:?}", other),
        }
    }
    let share = b as f64 / samples as f64;
    assert!((share - 0.75).abs() < 0.02, "share of B was {}", share);
}

#[test]
fn next_reaches_first_and_last_edge() {
    let node = node_with(&[("first", 1), ("middle", 1), ("last", 1)]);
    let mut rng = StdRng::seed_from_u64(7);
    let mut seen = [false; 3];
    for _ in 0..200 {
        let word = node.next(&mut rng).unwrap();
        for i in 0..3 {
            if node.successor(i) == &word {
                seen[i] = true;
            }
        }
    }
    assert_eq!(seen, [true, true, true]);
}

#[test]
fn next_of_single_edge_is_that_edge() {
    let node = node_with(&[("only", 4)]);
    let mut rng = StdRng::seed_from_u64(1);
    for _ in 0..20 {
        assert_eq!(node.next(&mut rng), Ok("only".to_string()));
    }
}

#[test]
fn next_without_edges_is_dead_end() {
    let node = Node::new();
    let mut rng = StdRng::seed_from_u64(1);
    assert_eq!(node.next(&mut rng), Err(GenerationError::DeadEnd));
}
