use skanda_engine::skanda::indexer::{is_indexed_extension, Indexer, INDEX_VERSION};
use skanda_engine::skanda::searcher::{SearchResult, Searcher};
use skanda_engine::skanda::snippet::{block_snippet, make_snippet};
use skanda_engine::skanda::SkandaError;

fn strings(v: &[&str]) -> Vec<String> {
    v.iter().map(|s| s.to_string()).collect()
}

const TEXT: &str = "Hello world, hello Rust!";

fn one_block_index() -> Indexer {
    let mut ix = Indexer::new();
    ix.add_file("a.txt".to_string());
    assert!(ix.index_block(0, 0, TEXT.len() as u32, TEXT));
    ix
}

fn searcher() -> Searcher {
    match Searcher::from_bytes(&one_block_index().to_bytes()) {
        Ok(s) => s,
        Err(_) => panic!("the index written should load"),
    }
}

#[test]
fn index_file_layout() {
    let bytes = one_block_index().to_bytes();
    let mut expected: Vec<u8> = b"SKDX".to_vec();
    expected.push(INDEX_VERSION);
    expected.extend([1, 0, 0, 0, 5, 0]);
    expected.extend(b"a.txt");
    expected.extend([1, 0, 0, 0]);
    expected.extend([0, 0, 0, 0, 0, 0, 0, 0, 0, 0, 0, 0, 24, 0, 0, 0, 4, 0]);
    expected.extend([3, 0, 0, 0]);
    expected.extend([5, 0]);
    expected.extend(b"hello");
    expected.extend([4, 0, 0, 0, 0, 2, 0, 13]);
    expected.extend([5, 0]);
    expected.extend(b"world");
    expected.extend([3, 0, 0, 0, 0, 1, 6]);
    expected.extend([4, 0]);
    expected.extend(b"rust");
    expected.extend([3, 0, 0, 0, 0, 1, 19]);
    assert_eq!(bytes, expected);
}

#[test]
fn saved_index_loads_back() {
    let s = searcher();
    assert_eq!(s.file_count(), 1);
    assert_eq!(s.file_path(0), "a.txt");
    assert_eq!(s.block_count(), 1);
    assert_eq!(s.block(0), (0, 0, 24, 4));
    assert_eq!(s.term_count(), 3);
    assert_eq!(s.vocabulary_len(), 3);
    assert_eq!(s.total_word_count(), 4);
}

#[test]
fn a_word_is_found_in_its_block() {
    let plan = searcher().plan("hello", false);
    assert_eq!(plan.terms.len(), 1);
    assert_eq!(plan.terms[0].text, "hello");
    assert!(plan.terms[0].exact);
    assert_eq!(plan.terms[0].doc_freq, 1);
    assert_eq!(plan.candidates.len(), 1);
    let c = &plan.candidates[0];
    assert_eq!(c.block_id, 0);
    assert_eq!(c.word_count, 4);
    assert_eq!(c.hits, vec![(0, 2)]);
    assert_eq!(c.distances, vec![Vec::<u32>::new()]);
    assert!(!c.phrase);
}

#[test]
fn distances_between_two_words() {
    let plan = searcher().plan("Hello RUST", false);
    let texts: Vec<&str> = plan.terms.iter().map(|t| t.text.as_str()).collect();
    assert_eq!(texts, vec!["hello", "rust"]);
    let c = &plan.candidates[0];
    assert_eq!(c.hits, vec![(0, 2), (1, 1)]);
    assert_eq!(c.distances, vec![vec![6], vec![]]);
}

#[test]
fn a_phrase_is_found_only_in_its_order() {
    let plan = searcher().plan("\"hello rust\"", false);
    assert_eq!(plan.phrases, vec![strings(&["hello", "rust"])]);
    assert!(plan.candidates[0].phrase);
    let plan = searcher().plan("\"rust hello\"", false);
    assert!(!plan.candidates[0].phrase);
}

#[test]
fn fuzzy_search_adds_near_words() {
    let plan = searcher().plan("helo", true);
    let terms: Vec<(&str, bool, usize)> = plan.terms.iter().map(|t| (t.text.as_str(), t.exact, t.doc_freq)).collect();
    assert_eq!(terms, vec![("helo", true, 0), ("hello", false, 1)]);
    assert_eq!(plan.candidates.len(), 1);
    assert_eq!(plan.candidates[0].hits, vec![(1, 2)]);
    let exact = searcher().plan("helo", false);
    assert_eq!(exact.terms.len(), 1);
    assert!(exact.candidates.is_empty());
}

#[test]
fn a_query_of_stop_words_looks_up_nothing() {
    let plan = searcher().plan("the of", true);
    assert!(plan.terms.is_empty());
    assert!(plan.candidates.is_empty());
}

#[test]
fn two_blocks_and_two_files() {
    let mut ix = Indexer::new();
    ix.add_file("a.txt".to_string());
    ix.add_file("b.txt".to_string());
    assert!(ix.index_block(0, 0, 9, "alpha one"));
    assert!(ix.index_block(1, 0, 14, "Alpha two two."));
    let s = match Searcher::from_bytes(&ix.to_bytes()) {
        Ok(s) => s,
        Err(_) => panic!("loads"),
    };
    assert_eq!(s.block(1), (1, 0, 14, 3));
    let plan = s.plan("alpha two", false);
    assert_eq!(plan.terms[0].doc_freq, 2);
    assert_eq!(plan.terms[1].doc_freq, 1);
    let ids: Vec<u32> = plan.candidates.iter().map(|c| c.block_id).collect();
    assert_eq!(ids, vec![0, 1]);
    assert_eq!(plan.candidates[0].hits, vec![(0, 1)]);
    assert_eq!(plan.candidates[1].hits, vec![(0, 1), (1, 2)]);
    assert_eq!(plan.candidates[1].distances, vec![vec![6], vec![]]);
    assert_eq!(s.select_results(&[1, 0]), vec![1, 0]);
    assert_eq!(s.total_word_count(), 5);
}

fn is_invalid(r: Result<Searcher, SkandaError>) -> bool {
    matches!(r, Err(SkandaError::InvalidIndex))
}

#[test]
fn damaged_files_are_refused() {
    let good = one_block_index().to_bytes();
    assert!(is_invalid(Searcher::from_bytes(&[])));
    assert!(is_invalid(Searcher::from_bytes(b"SKDX\x01")));
    let mut magic = good.clone();
    magic[3] = b'Y';
    assert!(is_invalid(Searcher::from_bytes(&magic)));
    let mut version = good.clone();
    version[4] = 2;
    assert!(is_invalid(Searcher::from_bytes(&version)));
    for cut in [5, 9, 20, good.len() - 1] {
        assert!(is_invalid(Searcher::from_bytes(&good[..cut])));
    }
    assert!(Searcher::from_bytes(&good).is_ok());
}

fn header() -> Vec<u8> {
    let mut b: Vec<u8> = b"SKDX".to_vec();
    b.push(1);
    b
}

#[test]
fn an_index_naming_a_missing_file_or_block_is_refused() {
    let mut b = header();
    b.extend([0, 0, 0, 0]);
    b.extend([1, 0, 0, 0, 5, 0, 0, 0, 0, 0, 0, 0, 0, 0, 0, 0, 1, 0, 0, 0, 1, 0]);
    b.extend([0, 0, 0, 0]);
    assert!(is_invalid(Searcher::from_bytes(&b)));
    let mut c = header();
    c.extend([0, 0, 0, 0, 0, 0, 0, 0, 1, 0, 0, 0, 2, 0]);
    c.extend(b"ab");
    c.extend([3, 0, 0, 0, 3, 1, 0]);
    assert!(is_invalid(Searcher::from_bytes(&c)));
}

#[test]
fn file_names_are_read_as_lossy_text() {
    let mut b = header();
    b.extend([1, 0, 0, 0, 3, 0, b'a', 0xFF, b'b']);
    b.extend([0, 0, 0, 0, 0, 0, 0, 0]);
    let s = match Searcher::from_bytes(&b) {
        Ok(s) => s,
        Err(_) => panic!("loads"),
    };
    assert_eq!(s.file_path(0), "a\u{FFFD}b");
    assert_eq!(s.block_count(), 0);
    assert_eq!(s.term_count(), 0);
}

#[test]
fn a_term_read_twice_keeps_its_last_list_and_a_block_read_twice_its_last_positions() {
    let mut b = header();
    b.extend([1, 0, 0, 0, 1, 0, b'f']);
    b.extend([1, 0, 0, 0, 0, 0, 0, 0, 0, 0, 0, 0, 0, 0, 0, 0, 50, 0, 0, 0, 3, 0]);
    b.extend([2, 0, 0, 0]);
    b.extend([2, 0, b'a', b'b', 3, 0, 0, 0, 0, 1, 7]);
    b.extend([2, 0, b'a', b'b', 6, 0, 0, 0, 0, 1, 1, 0, 1, 40]);
    b.extend([2, 0, b'c', b'd', 3, 0, 0, 0, 0, 1, 2]);
    let s = match Searcher::from_bytes(&b) {
        Ok(s) => s,
        Err(_) => panic!("loads"),
    };
    assert_eq!(s.term_count(), 1);
    let plan = s.plan("ab", false);
    assert_eq!(plan.terms[0].doc_freq, 1);
    assert_eq!(plan.candidates[0].hits, vec![(0, 1)]);
}

#[test]
fn io_errors_convert() {
    let e = SkandaError::from(std::io::Error::new(std::io::ErrorKind::NotFound, "gone"));
    assert!(matches!(e, SkandaError::Io(_)));
    let empty = SkandaError::EmptyQuery;
    assert!(matches!(empty, SkandaError::EmptyQuery));
}

#[test]
fn snippet_around_the_first_hit() {
    assert_eq!(make_snippet("Hello world", &strings(&["world"])), Some("...Hello world...".to_string()));
    assert_eq!(make_snippet("HELLO World", &strings(&["zzz", "world", "hello"])), Some("...HELLO World...".to_string()));
    assert_eq!(make_snippet("Hello world", &strings(&["nothing"])), None);
    assert_eq!(make_snippet("Hello world", &Vec::new()), None);
}

#[test]
fn snippet_window_is_widened_to_character_boundaries() {
    let text = format!("{}x", "€".repeat(40));
    let expected = format!("...{}x...", "€".repeat(34));
    assert_eq!(make_snippet(&text, &strings(&["x"])), Some(expected));
    let long = format!("{}needle{}", "a".repeat(150), "b".repeat(300));
    let snip = make_snippet(&long, &strings(&["needle"])).unwrap();
    assert_eq!(snip, format!("...{}needle{}...", "a".repeat(100), "b".repeat(194)));
}

#[test]
fn search_result_holds_path_and_snippet() {
    let r = SearchResult { file_path: "a.txt".to_string(), snippet: "...x...".to_string() };
    assert_eq!(r.file_path, "a.txt");
    assert_eq!(r.snippet, "...x...");
}

#[test]
fn a_chunk_of_bytes_is_indexed_as_lossy_text() {
    let mut ix = Indexer::new();
    ix.add_file("b.txt".to_string());
    assert_eq!(ix.file_count(), 1);
    assert!(ix.index_chunk(0, 0, b"Caf\xFF bar"));
    assert_eq!(ix.block_count(), 1);
    let s = match Searcher::from_bytes(&ix.to_bytes()) {
        Ok(s) => s,
        Err(_) => panic!("the index written should load"),
    };
    assert_eq!(s.block(0), (0, 0, 8, 2));
    let plan = s.plan("caf", false);
    assert_eq!(plan.candidates.len(), 1);
    assert_eq!(plan.candidates[0].hits, vec![(0, 1)]);
    let plan = s.plan("bar", false);
    assert_eq!(plan.candidates.len(), 1);
}

#[test]
fn block_snippet_reads_bytes_as_lossy_text() {
    let terms = strings(&["bar"]);
    assert_eq!(block_snippet(b"foo bar", &terms), Some("...foo bar...".to_string()));
    assert_eq!(block_snippet(b"foo baz", &terms), None);
}

#[test]
fn a_predicted_footprint_near_the_text_still_finds_it() {
    let text = "let token_type_ids = embed(input);";
    let mut ix = Indexer::new();
    ix.add_file("model.py".to_string());
    assert!(ix.index_block(0, 0, text.len() as u32, text));
    let s = match Searcher::from_bytes(&ix.to_bytes()) {
        Ok(s) => s,
        Err(_) => panic!("the index written should load"),
    };
    let plan = s.plan("token_type_embeddings", true);
    assert_eq!(plan.candidates.len(), 1);
    assert_eq!(plan.candidates[0].block_id, 0);
    let found: Vec<usize> = plan.candidates[0].hits.iter().map(|h| h.0).collect();
    let texts: Vec<&str> = found.iter().map(|&i| plan.terms[i].text.as_str()).collect();
    assert_eq!(texts, vec!["token", "type"]);
}

#[test]
fn text_files_are_chosen_by_extension() {
    for e in ["txt", "md", "csv", "json", "rs", "py", "js", "TXT", "Md", "JSON"] {
        assert!(is_indexed_extension(e), "{}", e);
    }
    for e in ["", "pdf", "t", "txt2", "jsx", "rs "] {
        assert!(!is_indexed_extension(e), "{}", e);
    }
}

#[test]
fn a_word_lists_every_block_holding_it_in_block_order() {
    let mut ix = Indexer::new();
    assert_eq!(ix.add_file("a.txt".to_string()), 0);
    assert_eq!(ix.add_file("b.txt".to_string()), 1);
    assert!(ix.index_block(0, 0, 11, "alpha beta"));
    assert!(ix.index_block(0, 11, 5, "gamma"));
    assert!(ix.index_block(1, 0, 17, "Beta, beta, BETA"));
    let s = match Searcher::from_bytes(&ix.to_bytes()) {
        Ok(s) => s,
        Err(_) => panic!("the index written should load"),
    };
    let plan = s.plan("beta", false);
    let ids: Vec<u32> = plan.candidates.iter().map(|c| c.block_id).collect();
    assert_eq!(ids, vec![0, 2]);
    assert_eq!(plan.candidates[0].hits, vec![(0, 1)]);
    assert_eq!(plan.candidates[1].hits, vec![(0, 3)]);
    assert_eq!(plan.terms[0].doc_freq, 2);
}
