use versearch::tokenizer::{tokenize, Tokenized};

fn word(source: &str, token: &str) -> Tokenized {
    Tokenized { source: source.to_string(), token: token.to_string() }
}

#[test]
fn test_tokenize() {
    assert_eq!(
        tokenize("hello, world!"),
        vec![
            Tokenized { source: "hello".to_string(), token: "HELLO".to_string() },
            Tokenized { source: "world".to_string(), token: "WORLD".to_string() }
        ]
    );
    assert_eq!(
        tokenize("It's all good in the neighborhood which is... good"),
        vec![
            Tokenized { source: "It's".to_string(), token: "ITS".to_string() },
            Tokenized { source: "all".to_string(), token: "ALL".to_string() },
            Tokenized { source: "good".to_string(), token: "GOOD".to_string() },
            Tokenized { source: "in".to_string(), token: "IN".to_string() },
            Tokenized { source: "the".to_string(), token: "THE".to_string() },
            Tokenized { source: "neighborhood".to_string(), token: "NEIGHBORHOOD".to_string() },
            Tokenized { source: "which".to_string(), token: "WHICH".to_string() },
            Tokenized { source: "is".to_string(), token: "IS".to_string() },
            Tokenized { source: "good".to_string(), token: "GOOD".to_string() },
        ]
    );
}

#[test]
fn apostrophes_stay_in_source_only() {
    assert_eq!(tokenize("It's good"), vec![word("It's", "ITS"), word("good", "GOOD")]);
}

#[test]
fn trailing_comma_is_dropped_inner_comma_kept() {
    assert_eq!(tokenize("a, b"), vec![word("a", "A"), word("b", "B")]);
    assert_eq!(tokenize("1,000 men,"), vec![word("1,000", "1000"), word("men", "MEN")]);
}

#[test]
fn word_without_letters_is_still_emitted() {
    assert_eq!(tokenize("a ... b"), vec![word("a", "A"), word("", ""), word("b", "B")]);
    assert_eq!(tokenize("'"), vec![word("'", "")]);
}

#[test]
fn white_space_runs_separate_words() {
    assert_eq!(tokenize(""), Vec::<Tokenized>::new());
    assert_eq!(tokenize(" \t\n "), Vec::<Tokenized>::new());
    assert_eq!(tokenize("  in\u{a0}the\u{2003}beginning\r\n"), vec![
        word("in", "IN"),
        word("the", "THE"),
        word("beginning", "BEGINNING"),
    ]);
}

#[test]
fn trailing_comma_after_non_ascii_letters_is_dropped() {
    assert_eq!(tokenize("caf\u{e9},"), vec![word("caf", "CAF")]);
}

#[test]
fn words_are_ordered_by_token() {
    assert!(word("zeal", "ZEAL") > word("Abba", "ABBA"));
    assert!(word("abba", "ABBA") < word("Zeal", "ZEAL"));
    assert!(word("a", "A") < word("ab", "AB"));
    assert_eq!(
        word("God", "GOD").partial_cmp(&word("god", "GOD")),
        Some(std::cmp::Ordering::Equal)
    );
    assert!(word("God", "GOD") != word("god", "GOD"));
    assert!(!(word("God", "GOD") < word("god", "GOD")));
}
