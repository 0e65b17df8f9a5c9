use markov_chain::words::{ends_sentence, is_space, join, split, starts_uppercase};
use regex::Regex;

fn strings(words: &[&str]) -> Vec<String> {
    words.iter().map(|w| w.to_string()).collect()
}

#[test]
fn splits_on_any_whitespace() {
    let words = split("  The cat\tsat.\n\nThe\u{00A0}cat\u{3000}ran. ");
    assert_eq!(words, strings(&["The", "cat", "sat.", "The", "cat", "ran."]));
}

#[test]
fn split_keeps_punctuation_and_case() {
    assert_eq!(split("Hello, World! hello"), strings(&["Hello,", "World!", "hello"]));
}

#[test]
fn split_of_nothing_is_empty() {
    assert_eq!(split(""), Vec::<String>::new());
    assert_eq!(split(" \t\r\n\u{2028}"), Vec::<String>::new());
}

#[test]
fn split_of_one_word() {
    assert_eq!(split("Hello"), strings(&["Hello"]));
}

#[test]
fn split_agrees_with_split_whitespace() {
    let texts = [
        "The cat sat. The cat ran.",
        "\u{1680}a\u{2000}b\u{200A}c\u{202F}d\u{205F}e\u{0085}f\u{000B}g\u{000C}h",
        "no-break\u{00A0}space zero\u{200B}width",
        "  leading and trailing  ",
    ];
    for text in texts {
        let expected: Vec<String> = text.split_whitespace().map(|w| w.to_string()).collect();
        assert_eq!(split(text), expected);
    }
}

#[test]
fn is_space_agrees_with_unicode_white_space() {
    let mut c = 0u32;
    while c <= 0x10FFFF {
        if let Some(ch) = char::from_u32(c) {
            assert_eq!(is_space(ch), ch.is_whitespace(), "U+{:04X}", c);
        }
        c += 1;
    }
}

#[test]
fn uppercase_start_is_ascii_a_to_z() {
    assert!(starts_uppercase("The"));
    assert!(starts_uppercase("A"));
    assert!(starts_uppercase("Z."));
    assert!(starts_uppercase("X-ray!"));
    assert!(!starts_uppercase("the"));
    assert!(!starts_uppercase(""));
    assert!(!starts_uppercase("1A"));
    assert!(!starts_uppercase("\"Quoted"));
    assert!(!starts_uppercase("\u{00C9}mile"));
    assert!(!starts_uppercase("@A"));
    assert!(!starts_uppercase("[A"));
}

#[test]
fn sentence_end_is_last_character() {
    assert!(ends_sentence("sat."));
    assert!(ends_sentence("what?"));
    assert!(ends_sentence("hey!"));
    assert!(ends_sentence("."));
    assert!(ends_sentence("wait..."));
    assert!(!ends_sentence(""));
    assert!(!ends_sentence("cat"));
    assert!(!ends_sentence("end.\""));
    assert!(!ends_sentence("a|"));
    assert!(!ends_sentence("a.b"));
    assert!(!ends_sentence("pause,"));
}

#[test]
fn word_tests_agree_with_patterns() {
    let opens = Regex::new(r"\A[A-Z]").unwrap();
    let closes = Regex::new(r"[!.?]\z").unwrap();
    let words = [
        "The", "the", "cat", "sat.", "Ran!", "why?", "A", "a", "Z9", "9Z", "x.y", "...", "Hi|",
        "|", "\u{00C9}t\u{00E9}.", "\u{4F60}\u{597D}?", "_Under", "Mid-word", "",
    ];
    for word in words {
        assert_eq!(starts_uppercase(word), opens.is_match(word), "{:?}", word);
        assert_eq!(ends_sentence(word), closes.is_match(word), "{:?}", word);
    }
}

#[test]
fn join_puts_single_spaces() {
    assert_eq!(join(&strings(&["The", "cat", "sat."])), "The cat sat.");
    assert_eq!(join(&strings(&["Hello"])), "Hello");
    assert_eq!(join(&strings(&[])), "");
    assert_eq!(join(&strings(&["a", "b"])), "a b");
}

#[test]
fn split_undoes_join() {
    let words = strings(&["One", "two,", "three!"]);
    assert_eq!(split(&join(&words)), words);
}
