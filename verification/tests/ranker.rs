use spellcheck::ranker::{assess, spell_check, Verdict, SUGGESTION_LIMIT};

fn words(list: &[&str]) -> Vec<String> {
    list.iter().map(|w| w.to_string()).collect()
}

fn pairs(list: &[(&str, usize)]) -> Vec<(String, usize)> {
    list.iter().map(|(w, d)| (w.to_string(), *d)).collect()
}

#[test]
fn known_word_gives_nothing() {
    let dictionary = words(&["hello", "help", "world"]);
    assert_eq!(spell_check("hello", &dictionary), Vec::new());
}

#[test]
fn known_word_anywhere_gives_nothing() {
    assert_eq!(spell_check("world", &words(&["hello", "help", "world"])), Vec::new());
    assert_eq!(spell_check("help", &words(&["hello", "help", "world"])), Vec::new());
    assert_eq!(spell_check("", &words(&["a", ""])), Vec::new());
}

#[test]
fn misspelt_word_is_ranked() {
    let dictionary = words(&["hello", "help", "world", "yellow"]);
    let suggestions = spell_check("helo", &dictionary);
    assert_eq!(
        suggestions,
        pairs(&[("hello", 1), ("help", 1), ("yellow", 3), ("world", 4)])
    );
}

#[test]
fn ties_keep_dictionary_order() {
    let dictionary = words(&["world", "yellow", "help", "hello"]);
    assert_eq!(
        spell_check("helo", &dictionary),
        pairs(&[("help", 1), ("hello", 1), ("yellow", 3), ("world", 4)])
    );
    let dictionary = words(&["bb", "aa", "cc"]);
    assert_eq!(
        spell_check("zz", &dictionary),
        pairs(&[("bb", 2), ("aa", 2), ("cc", 2)])
    );
}

#[test]
fn empty_dictionary_gives_nothing() {
    assert_eq!(spell_check("anything", &[]), Vec::new());
    assert_eq!(spell_check("", &[]), Vec::new());
}

#[test]
fn fifteen_distinct_distances_give_ten_nearest() {
    let dictionary: Vec<String> = (1..=15).rev().map(|n| "a".repeat(n)).collect();
    let suggestions = spell_check("", &dictionary);
    let expected: Vec<(String, usize)> = (1..=10).map(|n| ("a".repeat(n), n)).collect();
    assert_eq!(suggestions.len(), 10);
    assert_eq!(suggestions, expected);
}

#[test]
fn same_inputs_same_ranking() {
    let dictionary = words(&["spelling", "spewing", "sapling", "peeling", "spring"]);
    let first = spell_check("speling", &dictionary);
    let second = spell_check("speling", &dictionary);
    assert_eq!(first, second);
    assert_eq!(dictionary, words(&["spelling", "spewing", "sapling", "peeling", "spring"]));
}

#[test]
fn short_dictionary_is_ranked_whole() {
    let dictionary = words(&["dog", "cat", "cow"]);
    assert_eq!(
        spell_check("cot", &dictionary),
        pairs(&[("cat", 1), ("cow", 1), ("dog", 2)])
    );
}

#[test]
fn at_most_ten_suggestions() {
    let dictionary = words(&[
        "spelling", "spewing", "spieling", "sapling", "peeling", "selling", "spoiling", "sparing",
        "spiting", "dueling", "feeling", "spleen", "sibling", "spring", "piling", "sealing",
    ]);
    let suggestions = spell_check("speling", &dictionary);
    assert_eq!(suggestions.len(), SUGGESTION_LIMIT);
    assert_eq!(
        suggestions,
        pairs(&[
            ("spelling", 1),
            ("spewing", 1),
            ("spieling", 1),
            ("sapling", 2),
            ("peeling", 2),
            ("selling", 2),
            ("spoiling", 2),
            ("sparing", 2),
            ("spiting", 2),
            ("dueling", 2),
        ])
    );
}

#[test]
fn repeated_and_empty_entries_are_ranked() {
    let dictionary = words(&[
        "cat", "dog", "cot2", "coat", "cat", "", "c", "cost", "bot", "cots", "cut", "scot", "co",
        "ct", "ot",
    ]);
    assert_eq!(
        spell_check("cot", &dictionary),
        pairs(&[
            ("cat", 1),
            ("cot2", 1),
            ("coat", 1),
            ("cat", 1),
            ("cost", 1),
            ("bot", 1),
            ("cots", 1),
            ("cut", 1),
            ("scot", 1),
            ("co", 1),
        ])
    );
    assert_eq!(spell_check("ab", &words(&["", "abc"])), pairs(&[("abc", 1), ("", 2)]));
}

#[test]
fn match_is_byte_exact() {
    let dictionary = words(&["Hello", "hello "]);
    assert_eq!(
        spell_check("hello", &dictionary),
        pairs(&[("Hello", 1), ("hello ", 1)])
    );
}

#[test]
fn distances_count_bytes() {
    let dictionary = words(&["naïve", "nave"]);
    assert_eq!(
        spell_check("naive", &dictionary),
        pairs(&[("nave", 1), ("naïve", 2)])
    );
}

#[test]
fn limit_is_ten() {
    assert_eq!(SUGGESTION_LIMIT, 10);
}

#[test]
fn verdict_tells_match_from_empty_dictionary() {
    assert_eq!(assess("hello", &words(&["hello", "help"])), Verdict::ExactMatch);
    assert_eq!(assess("hello", &[]), Verdict::Suggestions(Vec::new()));
}

#[test]
fn verdict_lists_suggestions() {
    let dictionary = words(&["hello", "help", "world", "yellow"]);
    assert_eq!(
        assess("helo", &dictionary),
        Verdict::Suggestions(pairs(&[("hello", 1), ("help", 1), ("yellow", 3), ("world", 4)]))
    );
}

#[test]
fn verdict_agrees_with_ranking() {
    let dictionary = words(&["dog", "cat", "cow"]);
    for word in ["cot", "cat", "", "elephant"] {
        let expected = match assess(word, &dictionary) {
            Verdict::ExactMatch => Vec::new(),
            Verdict::Suggestions(list) => list,
        };
        assert_eq!(spell_check(word, &dictionary), expected);
    }
}

#[test]
fn crate_root_offers_the_same_functions() {
    let dictionary = words(&["dog", "cat", "cow"]);
    assert_eq!(
        spellcheck::spell_check("cot", &dictionary),
        spell_check("cot", &dictionary)
    );
    assert_eq!(spellcheck::wagner_fischer("cot", "cat"), 1);
}
