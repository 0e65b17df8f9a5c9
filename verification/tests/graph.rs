use markov_chain::{GenerationError, Graph};
use rand::rngs::StdRng;
use rand::SeedableRng;

fn strings(words: &[&str]) -> Vec<String> {
    words.iter().map(|w| w.to_string()).collect()
}

#[test]
fn new_graph_is_empty() {
    let graph = Graph::new();
    assert_eq!(graph.len(), 0);
    assert!(graph.entry_words().is_empty());
    assert!(graph.node("The").is_none());
    assert_eq!(graph.weight("The", "cat"), 0);
    assert_eq!(graph.room(), i32::MAX);
}

#[test]
fn add_registers_word_once() {
    let mut graph = Graph::new();
    graph.add("The".to_string(), None);
    assert_eq!(graph.len(), 1);
    assert_eq!(graph.entry_words(), &strings(&["The"]));
    graph.add("The".to_string(), None);
    assert_eq!(graph.len(), 1);
    assert_eq!(graph.entry_words(), &strings(&["The"]));
    assert_eq!(graph.node("The").unwrap().total_weight(), 0);
}

#[test]
fn add_strengthens_edge_from_previous_word() {
    let mut graph = Graph::new();
    graph.add("The".to_string(), None);
    graph.add("cat".to_string(), Some("The".to_string()));
    assert_eq!(graph.weight("The", "cat"), 1);
    assert_eq!(graph.weight("cat", "The"), 0);
    graph.add("cat".to_string(), Some("The".to_string()));
    assert_eq!(graph.weight("The", "cat"), 2);
    assert_eq!(graph.node("The").unwrap().total_weight(), 2);
    assert_eq!(graph.node("cat").unwrap().total_weight(), 0);
    assert_eq!(graph.entry_words(), &strings(&["The"]));
    assert_eq!(graph.room(), i32::MAX - 2);
}

#[test]
fn add_word_behind_itself() {
    let mut graph = Graph::new();
    graph.add("Ho".to_string(), None);
    graph.add("Ho".to_string(), Some("Ho".to_string()));
    assert_eq!(graph.len(), 1);
    assert_eq!(graph.weight("Ho", "Ho"), 1);
}

#[test]
fn lowercase_words_are_no_entry_words() {
    let mut graph = Graph::new();
    graph.ingest("the Cat sat. 9Lives Zed");
    assert_eq!(graph.entry_words(), &strings(&["Cat", "Zed"]));
}

#[test]
fn end_to_end_graph() {
    let mut graph = Graph::new();
    graph.ingest("The cat sat. The cat ran.");
    assert_eq!(graph.len(), 4);
    for word in ["The", "cat", "sat.", "ran."] {
        assert!(graph.node(word).is_some(), "{}", word);
    }
    assert_eq!(graph.entry_words(), &strings(&["The"]));
    assert_eq!(graph.weight("The", "cat"), 2);
    assert_eq!(graph.weight("cat", "sat."), 1);
    assert_eq!(graph.weight("cat", "ran."), 1);
    assert_eq!(graph.weight("sat.", "The"), 1);
    assert_eq!(graph.weight("ran.", "The"), 0);
    assert_eq!(graph.node("The").unwrap().total_weight(), 2);
    assert_eq!(graph.node("cat").unwrap().total_weight(), 2);
    assert_eq!(graph.node("sat.").unwrap().total_weight(), 1);
    assert_eq!(graph.node("ran.").unwrap().total_weight(), 0);
}

#[test]
fn end_to_end_tweets() {
    let mut graph = Graph::new();
    graph.ingest("The cat sat. The cat ran.");
    let mut rng = StdRng::seed_from_u64(0);
    let mut sat = 0;
    let mut ran = 0;
    for _ in 0..200 {
        match graph.generate_tweet(&mut rng, usize::MAX).unwrap().as_str() {
            "The cat sat." => sat += 1,
            "The cat ran." => ran += 1,
            other => panic!("generated {:?}", other),
        }
    }
    assert!(sat > 0 && ran > 0);
}

#[test]
fn dead_end_fails() {
    let mut graph = Graph::new();
    graph.ingest("Hello");
    assert_eq!(graph.len(), 1);
    assert_eq!(graph.node("Hello").unwrap().len(), 0);
    assert_eq!(graph.node("Hello").unwrap().total_weight(), 0);
    let mut rng = StdRng::seed_from_u64(3);
    assert_eq!(graph.generate_tweet(&mut rng, usize::MAX), Err(GenerationError::DeadEnd));
}

#[test]
fn dead_end_comes_before_the_step_limit() {
    let mut graph = Graph::new();
    graph.ingest("Hello there");
    let mut rng = StdRng::seed_from_u64(3);
    assert_eq!(graph.generate_tweet(&mut rng, 1), Err(GenerationError::DeadEnd));
    assert_eq!(graph.generate_tweet(&mut rng, 0), Err(GenerationError::TooLong));

    let mut graph = Graph::new();
    graph.ingest("Hello");
    assert_eq!(graph.generate_tweet(&mut rng, 0), Err(GenerationError::DeadEnd));
}

#[test]
fn dead_end_in_the_middle_of_a_walk() {
    let mut graph = Graph::new();
    graph.ingest("Hello there friend");
    let mut rng = StdRng::seed_from_u64(3);
    assert_eq!(graph.generate_tweet(&mut rng, usize::MAX), Err(GenerationError::DeadEnd));
}

#[test]
fn no_entry_words_fails() {
    let graph = Graph::new();
    let mut rng = StdRng::seed_from_u64(3);
    assert_eq!(graph.generate_tweet(&mut rng, usize::MAX), Err(GenerationError::NoEntryWords));
    assert_eq!(graph.random_entry_word(&mut rng), Err(GenerationError::NoEntryWords));

    let mut graph = Graph::new();
    graph.ingest("hello world.");
    assert_eq!(graph.generate_tweet(&mut rng, usize::MAX), Err(GenerationError::NoEntryWords));
}

#[test]
fn endless_walk_is_cut() {
    let mut graph = Graph::new();
    graph.ingest("A b A b");
    let mut rng = StdRng::seed_from_u64(3);
    assert_eq!(graph.generate_tweet(&mut rng, 10), Err(GenerationError::TooLong));
    assert_eq!(graph.generate_tweet(&mut rng, 0), Err(GenerationError::TooLong));
}

#[test]
fn step_limit_counts_steps() {
    let mut graph = Graph::new();
    graph.ingest("One two three.");
    let mut rng = StdRng::seed_from_u64(3);
    assert_eq!(graph.generate_tweet(&mut rng, 2), Ok("One two three.".to_string()));
    assert_eq!(graph.generate_tweet(&mut rng, 1), Err(GenerationError::TooLong));
}

#[test]
fn entry_word_that_closes_a_sentence_is_a_tweet() {
    let mut graph = Graph::new();
    graph.ingest("Stop!");
    let mut rng = StdRng::seed_from_u64(3);
    assert_eq!(graph.generate_tweet(&mut rng, 0), Ok("Stop!".to_string()));
}

#[test]
fn random_entry_word_reaches_every_entry() {
    let mut graph = Graph::new();
    graph.ingest("Alpha beta Gamma delta Omega");
    let mut rng = StdRng::seed_from_u64(11);
    let mut seen = [0, 0, 0];
    for _ in 0..300 {
        match graph.random_entry_word(&mut rng).unwrap().as_str() {
            "Alpha" => seen[0] += 1,
            "Gamma" => seen[1] += 1,
            "Omega" => seen[2] += 1,
            other => panic!("drew {:?}", other),
        }
    }
    assert!(seen.iter().all(|&n| n > 50), "{:?}", seen);
}

#[test]
fn totals_are_sums_after_every_word() {
    let text = "The quick fox. The lazy dog! The quick dog? A fox. The quick fox. The end";
    let mut graph = Graph::new();
    let mut last: Option<String> = None;
    let mut seen: Vec<String> = Vec::new();
    for word in text.split_whitespace() {
        graph.add(word.to_string(), last);
        last = Some(word.to_string());
        seen.push(word.to_string());
        for name in &seen {
            let node = graph.node(name).unwrap();
            let mut sum = 0;
            for i in 0..node.len() {
                sum += node.weight(node.successor(i));
                assert!(graph.node(node.successor(i)).is_some());
            }
            assert_eq!(node.total_weight(), sum);
        }
    }
    assert_eq!(graph.weight("The", "quick"), 3);
    assert_eq!(graph.weight("quick", "fox."), 2);
    assert_eq!(graph.weight("fox.", "The"), 3);
}

#[test]
fn tweets_open_with_entry_word_and_close_a_sentence() {
    let mut graph = Graph::new();
    graph.ingest("The quick fox. The lazy dog! is it The quick dog? A fox. The quick fox.");
    let mut rng = StdRng::seed_from_u64(99);
    for _ in 0..300 {
        let tweet = graph.generate_tweet(&mut rng, usize::MAX).unwrap();
        let words: Vec<&str> = tweet.split(' ').collect();
        assert!(graph.entry_words().iter().any(|w| w == words[0]));
        assert!(words[0].starts_with(|c: char| c.is_ascii_uppercase()));
        let last = words[words.len() - 1];
        assert!(last.ends_with('.') || last.ends_with('!') || last.ends_with('?'));
        for pair in words.windows(2) {
            assert!(graph.weight(pair[0], pair[1]) >= 1);
            assert!(!pair[0].ends_with(['.', '!', '?']));
        }
    }
}
