use word_analytics::Analytics;

fn count_of(a: &Analytics, w: &str) -> Option<u32> {
    a.word_map.iter().find(|(k, _)| k == w).map(|(_, c)| *c)
}

#[test]
fn test_normal() {
    let analytics = Analytics::new(&"Hello, world! Hello, everyone!".to_string());

    assert_eq!(count_of(&analytics, "hello"), Some(2));
    assert_eq!(count_of(&analytics, "world"), Some(1));
    assert_eq!(count_of(&analytics, "everyone"), Some(1));

    // "hello" is not a stopword, so it is the first one in sorted_words
    assert_eq!(analytics.sorted_words[0], ("hello".to_string(), 2));
}

#[test]
fn test_empty() {
    let analytics = Analytics::new(&"".to_string());

    assert_eq!(analytics.word_map.len(), 0);
    assert_eq!(analytics.sorted_words.len(), 0);
}

#[test]
fn test_special_characters() {
    let content = "Hello, world! Hello, world! Hello, world!".to_string();
    let analytics = Analytics::new(&content);

    assert_eq!(count_of(&analytics, "hello"), Some(3));
    assert_eq!(count_of(&analytics, "world"), Some(3));

    // Both "hello" and "world" are in `sorted_words` with count 3
    assert!(analytics
        .sorted_words
        .iter()
        .any(|&(ref s, count)| s == "hello" && count == 3));
    assert!(analytics
        .sorted_words
        .iter()
        .any(|&(ref s, count)| s == "world" && count == 3));
}

#[test]
fn test_stopwords() {
    let content = "the quick brown fox jumps over the lazy dog".to_string();
    let analytics = Analytics::new(&content);
    assert_eq!(count_of(&analytics, "the"), Some(2)); // "the" is expected to be in word_map
    let in_sorted = analytics.sorted_words.iter().any(|(word, _)| word == "the");
    assert_eq!(in_sorted, false); // "the" is not expected to be in sorted_words
}

#[test]
fn test_get_count() {
    let content = "Hello hello world world world".to_string();
    let analytics = Analytics::new(&content);

    // 'hello' appears 2 times in the text
    let count = analytics.get_count(&"hello".to_string());
    assert_eq!(count, Some(2));

    // 'world' appears 3 times in the text
    let count = analytics.get_count(&"world".to_string());
    assert_eq!(count, Some(3));

    // 'goodbye' does not appear in the text
    let count = analytics.get_count(&"goodbye".to_string());
    assert_eq!(count, None);
}

#[test]
fn test_get_top_words() {
    let content = "hello world hello world hello test".to_string();
    let analytics = Analytics::new(&content);

    let top_2_words = analytics.get_top_words(2);
    assert_eq!(top_2_words.len(), 2);
    assert_eq!(
        top_2_words,
        vec![
            (1, "hello".to_string(), 3),
            (2, "world".to_string(), 2)
        ]
    );
}

#[test]
fn test_get_top_words_more_than_exists() {
    let content = "hello world hello world hello test".to_string();
    let analytics = Analytics::new(&content);

    let top_5_words = analytics.get_top_words(5);
    assert_eq!(top_5_words.len(), 3); // only 3 unique words in content
    assert_eq!(
        top_5_words,
        vec![
            (1, "hello".to_string(), 3),
            (2, "world".to_string(), 2),
            (3, "test".to_string(), 1),
        ]
    );
}

#[test]
fn test_total_word_count() {
    let content = "hello world hello world hello test".to_string();
    let analytics = Analytics::new(&content);
    assert_eq!(analytics.get_total_word_count(), 6);
}

#[test]
fn test_total_character_count() {
    let content = "hello world hello world hello test".to_string();
    let analytics = Analytics::new(&content);
    assert_eq!(analytics.get_character_count(), 29);
}

#[test]
fn test_empty_totals() {
    let analytics = Analytics::new(&"".to_string());
    assert_eq!(analytics.get_total_word_count(), 0);
    assert_eq!(analytics.get_character_count(), 0);
    assert_eq!(analytics.get_top_words(3), vec![]);
    assert_eq!(analytics.get_count(&"hello".to_string()), None);
}

#[test]
fn test_top_words_zero() {
    let content = "hello world hello".to_string();
    let analytics = Analytics::new(&content);
    assert_eq!(analytics.get_top_words(0), vec![]);
}

#[test]
fn test_word_count_equals_tokens() {
    // the total equals the number of whitespace-delimited tokens,
    // stop words and punctuation-only tokens included
    let content = "the cat --- the cat !!!".to_string();
    let analytics = Analytics::new(&content);
    assert_eq!(analytics.get_total_word_count(), 6);
}

#[test]
fn test_counts_sum_to_total() {
    let content = "over the hills and far away over and over".to_string();
    let analytics = Analytics::new(&content);
    let sum: u32 = analytics.word_map.iter().map(|(_, c)| *c).sum();
    assert_eq!(sum, analytics.get_total_word_count());
}

#[test]
fn test_ranked_sorted_and_no_stopwords() {
    let content = "the dog saw the fox and the dog ran dog fox".to_string();
    let analytics = Analytics::new(&content);
    let ranked = &analytics.sorted_words;
    for win in ranked.windows(2) {
        assert!(win[0].1 >= win[1].1);
    }
    assert!(!ranked.iter().any(|(w, _)| w == "the" || w == "and"));
    assert_eq!(ranked[0], ("dog".to_string(), 3));
    assert_eq!(ranked[1], ("fox".to_string(), 2));
}

#[test]
fn test_stopword_over_excluded() {
    let content = "over and over again".to_string();
    let analytics = Analytics::new(&content);
    assert_eq!(count_of(&analytics, "over"), Some(2));
    assert!(!analytics.sorted_words.iter().any(|(w, _)| w == "over"));
    assert!(analytics.sorted_words.iter().any(|(w, _)| w == "again"));
}

#[test]
fn test_punctuation_only_tokens_count_under_empty_key() {
    let content = "!!! ??? ...".to_string();
    let analytics = Analytics::new(&content);
    assert_eq!(analytics.get_count(&"".to_string()), Some(3));
    assert_eq!(analytics.get_total_word_count(), 3);
    // the empty word has no graphemes
    assert_eq!(analytics.get_character_count(), 0);
}

#[test]
fn test_grapheme_count_multi_codepoint() {
    // Hangul jamo: two alphabetic code points forming one user-perceived
    // character; a code-point count would see 2, a grapheme count sees 1
    let content = "\u{1100}\u{1161}".to_string();
    let analytics = Analytics::new(&content);
    assert_eq!(analytics.get_total_word_count(), 1);
    assert_eq!(analytics.get_character_count(), 1);
}

#[test]
fn test_try_character_count_matches() {
    let content = "hello world hello world hello test".to_string();
    let analytics = Analytics::new(&content);
    assert_eq!(analytics.try_character_count(), Some(29));
}

#[test]
fn test_lowercasing_unicode() {
    let content = "Straße STRASSE Ärger ÄRGER".to_string();
    let analytics = Analytics::new(&content);
    assert_eq!(analytics.get_count(&"straße".to_string()), Some(1));
    assert_eq!(analytics.get_count(&"strasse".to_string()), Some(1));
    assert_eq!(analytics.get_count(&"ärger".to_string()), Some(2));
}

#[test]
fn test_book_builds() {
    let _book = word_analytics::Book::new(
        "A Title".to_string(),
        "some content here".to_string(),
    );
}
