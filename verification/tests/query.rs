use skanda_engine::skanda::indexer::is_stop_word;
use skanda_engine::skanda::query::query_words;
use skanda_engine::skanda::searcher::{deduplicate, min_position_distance, parse_query, phrase_in_block, DEDUP_WINDOW, TOP_K};

fn strings(v: &[&str]) -> Vec<String> {
    v.iter().map(|s| s.to_string()).collect()
}

#[test]
fn stop_words_leave_regular_terms() {
    let (regular, phrases) = parse_query("The quick brown fox");
    assert_eq!(regular, strings(&["quick", "brown", "fox"]));
    assert!(phrases.is_empty());
}

#[test]
fn quoted_words_form_a_phrase() {
    let (regular, phrases) = parse_query("\"New York\" city");
    assert_eq!(regular, strings(&["city"]));
    assert_eq!(phrases, vec![strings(&["new", "york"])]);
}

#[test]
fn stop_words_stay_inside_phrases() {
    let (regular, phrases) = parse_query("\"the lord of the rings\"");
    assert!(regular.is_empty());
    assert_eq!(phrases, vec![strings(&["the", "lord", "of", "the", "rings"])]);
}

#[test]
fn a_one_word_phrase_becomes_a_regular_term() {
    let (regular, phrases) = parse_query("\"rust\" cat");
    assert_eq!(regular, strings(&["rust", "cat"]));
    assert!(phrases.is_empty());
}

#[test]
fn a_quoted_stop_word_alone_is_dropped() {
    let (regular, phrases) = parse_query("\"the\" cat");
    assert_eq!(regular, strings(&["cat"]));
    assert!(phrases.is_empty());
    let (regular, phrases) = parse_query("\"The\"");
    assert!(regular.is_empty());
    assert!(phrases.is_empty());
}

#[test]
fn an_unclosed_quote_gives_regular_terms_without_stop_words() {
    let (regular, phrases) = parse_query("\"big data of");
    assert_eq!(regular, strings(&["big", "data"]));
    assert!(phrases.is_empty());
}

#[test]
fn terms_are_lowercase_and_split_at_punctuation() {
    let (regular, _) = parse_query("HELLO, Wörld! x-y");
    assert_eq!(regular, strings(&["hello", "wörld", "x", "y"]));
}

#[test]
fn empty_query_has_no_terms() {
    let (regular, phrases) = parse_query("  ,, ");
    assert!(regular.is_empty());
    assert!(phrases.is_empty());
}

#[test]
fn stop_word_list() {
    for w in ["a", "an", "and", "the", "of", "with", "will", "this"] {
        assert!(is_stop_word(w));
    }
    for w in ["", "The", "rust", "theme", "an "] {
        assert!(!is_stop_word(w));
    }
}

#[test]
fn query_words_are_distinct_in_order() {
    let words = query_words(&strings(&["b", "a", "b"]), &vec![strings(&["a", "c"]), strings(&["d", "c"])]);
    assert_eq!(words, strings(&["b", "a", "c", "d"]));
}

#[test]
fn smallest_distance_between_positions() {
    assert_eq!(min_position_distance(&[1, 10, 20], &[15, 30]), 5);
    assert_eq!(min_position_distance(&[100], &[7]), 93);
    assert_eq!(min_position_distance(&[4, 4], &[4]), 0);
    assert_eq!(min_position_distance(&[], &[1]), u32::MAX);
    assert_eq!(min_position_distance(&[1], &[]), u32::MAX);
}

#[test]
fn phrase_follows_within_two_bytes() {
    let positions = vec![("new".to_string(), vec![0u32, 20]), ("york".to_string(), vec![4u32])];
    assert!(phrase_in_block(&strings(&["new", "york"]), &positions));
    let shifted = vec![("new".to_string(), vec![0u32]), ("york".to_string(), vec![6u32])];
    assert!(phrase_in_block(&strings(&["new", "york"]), &shifted));
    let far = vec![("new".to_string(), vec![0u32]), ("york".to_string(), vec![10u32])];
    assert!(!phrase_in_block(&strings(&["new", "york"]), &far));
    let missing = vec![("new".to_string(), vec![0u32])];
    assert!(!phrase_in_block(&strings(&["new", "york"]), &missing));
    assert!(phrase_in_block(&strings(&["new"]), &missing));
}

#[test]
fn deduplicate_keeps_one_block_per_passage() {
    let blocks = vec![(0u32, 0u64, 100u32, 10u16), (0, 200, 100, 10), (0, 2000, 100, 10), (1, 0, 100, 10)];
    assert_eq!(deduplicate(&[0, 1, 2, 3], &blocks), vec![0, 2, 3]);
    assert_eq!(deduplicate(&[1, 0, 2, 3], &blocks), vec![1, 2, 3]);
    assert_eq!(deduplicate(&[], &blocks), Vec::<u32>::new());
    // Exactly the window apart is a new passage; one byte closer is not.
    let edge = vec![(0u32, 0u64, 100u32, 1u16), (0, 600, 10, 1), (0, 599, 10, 1)];
    assert_eq!(deduplicate(&[0, 1], &edge), vec![0, 1]);
    assert_eq!(deduplicate(&[0, 2], &edge), vec![0]);
    assert_eq!(DEDUP_WINDOW, 500);
}

#[test]
fn deduplicate_keeps_at_most_top_k() {
    let blocks: Vec<(u32, u64, u32, u16)> = (0..30u32).map(|i| (i, 0u64, 10u32, 1u16)).collect();
    let ranked: Vec<u32> = (0..30).collect();
    let kept = deduplicate(&ranked, &blocks);
    assert_eq!(kept.len(), TOP_K);
    assert_eq!(kept, (0..20).collect::<Vec<u32>>());
}

#[test]
fn a_phrase_near_the_end_of_the_offsets_is_still_checked() {
    let top = u32::MAX - 3;
    let positions = vec![("big".to_string(), vec![top - 4]), ("data".to_string(), vec![top])];
    assert!(phrase_in_block(&strings(&["big", "data"]), &positions));
    let far = vec![("big".to_string(), vec![u32::MAX]), ("data".to_string(), vec![u32::MAX])];
    assert!(!phrase_in_block(&strings(&["big", "data"]), &far));
}
