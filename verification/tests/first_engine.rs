use skanda_engine::pfr::indexer::Indexer as BlockIndexer;
use skanda_engine::pfr::searcher::{cut_snippet, split_words, Searcher as BlockSearcher};
use skanda_engine::pfr::PfrError;
use skanda_engine::skanda::compression::encode_inverted_entry;

fn strings(v: &[&str]) -> Vec<String> {
    v.iter().map(|s| s.to_string()).collect()
}

#[test]
fn block_index_layout() {
    let mut ix = BlockIndexer::new();
    ix.add_file("a.txt".to_string());
    assert!(ix.index_block(0, 0, 17, "Hello hello world"));
    assert!(ix.index_block(0, 17, 5, "WORLD"));
    assert_eq!(ix.file_count(), 1);
    assert_eq!(ix.block_count(), 2);
    let mut expected: Vec<u8> = vec![1, 0, 0, 0, 5, 0];
    expected.extend(b"a.txt");
    expected.extend([2, 0, 0, 0]);
    expected.extend([0, 0, 0, 0, 0, 0, 0, 0, 0, 0, 0, 0, 17, 0, 0, 0]);
    expected.extend([0, 0, 0, 0, 17, 0, 0, 0, 0, 0, 0, 0, 5, 0, 0, 0]);
    expected.extend([2, 0, 0, 0]);
    expected.extend([5, 0]);
    expected.extend(b"hello");
    let hello = encode_inverted_entry(&[(0, vec![0, 6])]);
    expected.extend((hello.len() as u32).to_le_bytes());
    expected.extend(hello);
    expected.extend([5, 0]);
    expected.extend(b"world");
    let world = encode_inverted_entry(&[(0, vec![12]), (1, vec![0])]);
    expected.extend((world.len() as u32).to_le_bytes());
    expected.extend(world);
    assert_eq!(ix.to_bytes(), expected);
}

#[test]
fn empty_block_index() {
    let ix = BlockIndexer::new();
    assert_eq!(ix.to_bytes(), vec![0u8; 12]);
}

#[test]
fn the_index_written_loads_in_the_searcher() {
    let mut ix = BlockIndexer::new();
    ix.add_file("a.txt".to_string());
    assert!(ix.index_chunk(0, 0, b"alpha beta gamma"));
    assert!(ix.index_chunk(0, 16, b"beta delta"));
    let s = load(&ix.to_bytes());
    assert_eq!(s.file_count(), 1);
    assert_eq!(s.block_count(), 2);
    assert_eq!(s.block(1), (0, 16, 10));
    let plan = s.plan("beta");
    assert_eq!(plan.doc_freqs, vec![2]);
    let ids: Vec<u32> = plan.candidates.iter().map(|c| c.block_id).collect();
    assert_eq!(ids, vec![0, 1]);
    let plan = s.plan("beta delta");
    let ids: Vec<u32> = plan.candidates.iter().map(|c| c.block_id).collect();
    assert_eq!(ids, vec![1]);
}

#[test]
fn words_keep_their_order_and_repeats() {
    assert_eq!(split_words("alpha beta, alpha"), strings(&["alpha", "beta", "alpha"]));
    assert_eq!(split_words("  "), Vec::<String>::new());
    assert_eq!(split_words("x1_y2"), strings(&["x1", "y2"]));
}

fn index_bytes(block_len: u32, entries: &[(&str, Vec<(u32, Vec<u32>)>)]) -> Vec<u8> {
    let mut b: Vec<u8> = vec![1, 0, 0, 0, 5, 0];
    b.extend(b"a.txt");
    b.extend([1, 0, 0, 0]);
    b.extend([0, 0, 0, 0, 0, 0, 0, 0, 0, 0, 0, 0]);
    b.extend(block_len.to_le_bytes());
    b.extend((entries.len() as u32).to_le_bytes());
    for (term, list) in entries {
        b.extend((term.len() as u16).to_le_bytes());
        b.extend(term.as_bytes());
        let enc = encode_inverted_entry(list);
        b.extend((enc.len() as u32).to_le_bytes());
        b.extend(enc);
    }
    b
}

fn load(bytes: &[u8]) -> BlockSearcher {
    match BlockSearcher::from_bytes(bytes) {
        Ok(s) => s,
        Err(_) => panic!("loads"),
    }
}

#[test]
fn near_words_are_marked_near() {
    let s = load(&index_bytes(64, &[("alpha", vec![(0, vec![0])]), ("beta", vec![(0, vec![10])])]));
    assert_eq!(s.file_path(0), "a.txt");
    assert_eq!(s.block(0), (0, 0, 64));
    let plan = s.plan("Alpha BETA alpha");
    assert_eq!(plan.words, strings(&["alpha", "beta", "alpha"]));
    assert_eq!(plan.doc_freqs, vec![1, 1, 1]);
    assert_eq!(plan.candidates.len(), 1);
    let c = &plan.candidates[0];
    assert_eq!(c.block_id, 0);
    assert_eq!(c.found, vec![true, true, true]);
    assert_eq!(c.proximity, vec![Some(true), Some(true)]);
}

#[test]
fn far_words_are_marked_far() {
    let s = load(&index_bytes(1000, &[("alpha", vec![(0, vec![0])]), ("beta", vec![(0, vec![600])])]));
    let c = &s.plan("alpha beta alpha").candidates[0];
    assert_eq!(c.proximity, vec![Some(false), Some(true)]);
    let d = &s.plan("beta alpha").candidates[0];
    assert_eq!(d.proximity, vec![Some(false)]);
}

#[test]
fn only_blocks_holding_every_word_are_candidates() {
    let s = load(&index_bytes(64, &[("alpha", vec![(0, vec![0])])]));
    let plan = s.plan("gamma alpha");
    assert_eq!(plan.doc_freqs, vec![0, 1]);
    assert!(plan.candidates.is_empty());
    let plan = s.plan("alpha");
    assert_eq!(plan.candidates[0].found, vec![true]);
    assert!(plan.candidates[0].proximity.is_empty());
    let none = s.plan("gamma");
    assert!(none.candidates.is_empty());
    let empty = s.plan("");
    assert!(empty.words.is_empty());
    assert!(empty.candidates.is_empty());
}

#[test]
fn a_word_with_no_positions_is_found_but_not_placed() {
    let s = load(&index_bytes(64, &[("alpha", vec![(0, vec![0])]), ("beta", vec![(0, vec![])])]));
    let c = &s.plan("alpha beta").candidates[0];
    assert_eq!(c.found, vec![true, true]);
    assert_eq!(c.proximity, vec![None]);
}

#[test]
fn damaged_block_index_is_refused() {
    let good = index_bytes(64, &[("alpha", vec![(0, vec![0])])]);
    assert!(BlockSearcher::from_bytes(&good).is_ok());
    for cut in [0, 3, 10, good.len() - 1] {
        assert!(matches!(BlockSearcher::from_bytes(&good[..cut]), Err(PfrError::InvalidIndex)));
    }
    let missing_block = index_bytes(64, &[("alpha", vec![(1, vec![0])])]);
    assert!(matches!(BlockSearcher::from_bytes(&missing_block), Err(PfrError::InvalidIndex)));
    let e = PfrError::from(std::io::Error::new(std::io::ErrorKind::Other, "x"));
    assert!(matches!(e, PfrError::Io(_)));
}

#[test]
fn cut_snippet_needs_character_boundaries() {
    assert_eq!(cut_snippet("Hello world", &strings(&["world"])), Some("...Hello world...".to_string()));
    assert_eq!(cut_snippet("Hello world", &strings(&["zzz"])), None);
    let text = format!("{}x", "€".repeat(40));
    assert_eq!(cut_snippet(&text, &strings(&["x"])), None);
    let text = format!("{}x", "€".repeat(20));
    assert_eq!(cut_snippet(&text, &strings(&["x"])), Some(format!("...{}x...", "€".repeat(20))));
}
