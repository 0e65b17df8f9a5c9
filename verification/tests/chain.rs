use markov_chain::{GenerationError, MarkovChain};
use rand::rngs::StdRng;
use rand::SeedableRng;

fn strings(words: &[&str]) -> Vec<String> {
    words.iter().map(|w| w.to_string()).collect()
}

fn seeded(seed: u64) -> MarkovChain {
    MarkovChain::with_rng(StdRng::seed_from_u64(seed), usize::MAX)
}

#[test]
fn create_a_tweet() {
    let texts = strings(&["Implement me pls."]);
    let mut mchain = MarkovChain::new();

    let response = mchain.create_tweets(&texts, 1).unwrap();
    assert_eq!(response[0], "Implement me pls.");
}

#[test]
fn no_edge_joins_two_texts() {
    let mut chain = seeded(1);
    chain.parse_in(&strings(&["Hello world.", "Goodbye now."]));
    let graph = chain.graph();
    assert_eq!(graph.weight("world.", "Goodbye"), 0);
    assert!(graph.node("world.").unwrap().len() == 0);
    assert_eq!(graph.weight("Hello", "world."), 1);
    assert_eq!(graph.weight("Goodbye", "now."), 1);
    assert_eq!(graph.len(), 4);
    assert_eq!(graph.entry_words(), &strings(&["Hello", "Goodbye"]));
}

#[test]
fn texts_without_words_add_nothing() {
    let mut chain = seeded(1);
    chain.parse_in(&strings(&["", "  \n\t ", "Hi there."]));
    assert_eq!(chain.graph().len(), 2);
    chain.parse_in(&strings(&[]));
    chain.parse_in(&strings(&[""]));
    assert_eq!(chain.graph().len(), 2);
    assert_eq!(chain.graph().weight("Hi", "there."), 1);
}

#[test]
fn texts_read_later_add_to_the_graph() {
    let mut chain = seeded(1);
    chain.parse_in(&strings(&["The cat sat."]));
    chain.parse_in(&strings(&["The cat ran.", "The dog ran."]));
    let graph = chain.graph();
    assert_eq!(graph.weight("The", "cat"), 2);
    assert_eq!(graph.weight("The", "dog"), 1);
    assert_eq!(graph.weight("cat", "ran."), 1);
    assert_eq!(graph.weight("sat.", "The"), 0);
    assert_eq!(graph.entry_words(), &strings(&["The"]));
}

#[test]
fn same_texts_build_same_graph() {
    let texts = strings(&["The cat sat. The cat ran.", "A dog ran. The dog sat!"]);
    let mut first = seeded(1);
    let mut second = seeded(2);
    first.parse_in(&texts);
    second.parse_in(&texts);
    let (a, b) = (first.graph(), second.graph());
    assert_eq!(a.len(), b.len());
    assert_eq!(a.entry_words(), b.entry_words());
    for from in ["The", "cat", "sat.", "ran.", "A", "dog", "sat!"] {
        let (x, y) = (a.node(from).unwrap(), b.node(from).unwrap());
        assert_eq!(x.len(), y.len());
        assert_eq!(x.total_weight(), y.total_weight());
        for i in 0..x.len() {
            assert_eq!(x.successor(i), y.successor(i));
            assert_eq!(x.weight(x.successor(i)), y.weight(y.successor(i)));
        }
    }
}

#[test]
fn same_seed_gives_same_tweets() {
    let texts = strings(&[
        "The quick fox jumps. The lazy dog sleeps! A quick dog jumps? The fox sleeps.",
        "A lazy fox jumps over The quick dog. The dog jumps!",
    ]);
    let mut first = seeded(12345);
    let mut second = seeded(12345);
    let a = first.create_tweets(&texts, 50).unwrap();
    let b = second.create_tweets(&texts, 50).unwrap();
    assert_eq!(a.len(), 50);
    assert_eq!(a, b);
    let mut other = seeded(54321);
    let c = other.create_tweets(&texts, 50).unwrap();
    assert_ne!(a, c);
}

#[test]
fn create_tweets_makes_the_number_asked_for() {
    let texts = strings(&["The cat sat. The cat ran."]);
    assert_eq!(seeded(5).create_tweets(&texts, 3).unwrap().len(), 3);
    assert_eq!(seeded(5).create_tweets(&texts, 0), Ok(Vec::new()));
    assert_eq!(seeded(5).create_tweets(&texts, -4), Ok(Vec::new()));
}

#[test]
fn create_tweets_end_to_end() {
    let texts = strings(&["The cat sat. The cat ran."]);
    let tweets = seeded(8).create_tweets(&texts, 100).unwrap();
    for tweet in &tweets {
        assert!(tweet == "The cat sat." || tweet == "The cat ran.", "{:?}", tweet);
    }
}

#[test]
fn create_tweets_reports_dead_end() {
    let texts = strings(&["Hello"]);
    assert_eq!(seeded(5).create_tweets(&texts, 1), Err(GenerationError::DeadEnd));
    assert_eq!(seeded(5).create_tweets(&texts, 0), Ok(Vec::new()));
}

#[test]
fn create_tweets_reports_missing_entry_words() {
    assert_eq!(seeded(5).create_tweets(&strings(&[]), 2), Err(GenerationError::NoEntryWords));
    assert_eq!(
        seeded(5).create_tweets(&strings(&["all lower case."]), 2),
        Err(GenerationError::NoEntryWords)
    );
}

#[test]
fn generate_tweet_respects_step_limit() {
    let mut chain = MarkovChain::with_rng(StdRng::seed_from_u64(4), 5);
    chain.parse_in(&strings(&["Round and Round and"]));
    assert_eq!(chain.generate_tweet(), Err(GenerationError::TooLong));
}

#[test]
fn room_is_checked_before_reading() {
    let chain = seeded(1);
    assert!(chain.has_room_for(&strings(&["The cat sat.", "", "A dog."])));
    assert_eq!(chain.graph().room(), i32::MAX);
}
