use skanda_engine::pfr::fuzzy_search::{levenshtein_distance, FuzzyMatcher};
use skanda_engine::skanda::bktree::BKTree;
use skanda_engine::skanda::fuzzy_search::levenshtein_distance as two_row_distance;

#[test]
fn kitten_to_sitting_takes_three_edits() {
    assert_eq!(levenshtein_distance("kitten", "sitting"), 3);
    assert_eq!(two_row_distance("kitten", "sitting"), 3);
}

#[test]
fn distance_edge_cases() {
    for f in [levenshtein_distance as fn(&str, &str) -> usize, two_row_distance] {
        assert_eq!(f("", ""), 0);
        assert_eq!(f("", "abc"), 3);
        assert_eq!(f("abc", ""), 3);
        assert_eq!(f("abc", "abc"), 0);
        assert_eq!(f("flaw", "lawn"), 2);
        assert_eq!(f("café", "cafe"), 1);
        assert_eq!(f("token_type_embeddings", "token_type_ids"), 8);
    }
}

#[test]
fn distance_is_symmetric_and_obeys_the_triangle() {
    let words = ["", "a", "ab", "book", "back", "books", "cake", "kitten", "sitting", "héllo"];
    for a in words {
        assert_eq!(levenshtein_distance(a, a), 0);
        for b in words {
            let ab = levenshtein_distance(a, b);
            assert_eq!(ab, levenshtein_distance(b, a));
            assert_eq!(ab, two_row_distance(a, b));
            for c in words {
                assert!(levenshtein_distance(a, c) <= ab + levenshtein_distance(b, c));
            }
        }
    }
}

#[test]
fn exact_match_ends_at_the_last_byte() {
    let m = FuzzyMatcher::new("hello", 0);
    assert_eq!(m.find("say hello"), Some(8));
    assert_eq!(m.find("hello hello"), Some(4));
    assert_eq!(m.find("help"), None);
}

#[test]
fn one_error_allows_a_missing_letter() {
    let m = FuzzyMatcher::new("hello", 1);
    assert_eq!(m.find("say helo there"), Some(7));
    let exact = FuzzyMatcher::new("hello", 0);
    assert_eq!(exact.find("say helo there"), None);
}

#[test]
fn empty_pattern_matches_at_once() {
    let m = FuzzyMatcher::new("", 2);
    assert_eq!(m.find("anything"), Some(0));
    assert_eq!(m.find(""), Some(0));
}

#[test]
fn no_match_in_empty_text() {
    let m = FuzzyMatcher::new("abc", 1);
    assert_eq!(m.find(""), None);
    assert_eq!(m.find("xyz"), None);
}

#[test]
fn matches_are_within_the_edit_budget() {
    let texts = ["the quick brown fox", "jumps over", "lazy dogs", "quack", "qiuck"];
    for k in 0..3usize {
        let m = FuzzyMatcher::new("quick", k);
        for t in texts {
            if let Some(end) = m.find(t) {
                let best = (0..=end)
                    .map(|start| levenshtein_distance("quick", &t[start..=end]))
                    .min()
                    .unwrap();
                assert!(best <= k);
            }
        }
    }
}

fn sorted(mut v: Vec<&str>) -> Vec<&str> {
    v.sort();
    v
}

#[test]
fn bktree_keeps_each_word_once() {
    let mut t = BKTree::new();
    assert_eq!(t.len(), 0);
    for w in ["book", "books", "cake", "boo", "cape", "cart", "book"] {
        t.insert(w);
    }
    assert_eq!(t.len(), 6);
}

#[test]
fn bktree_finds_exactly_the_words_within_the_distance() {
    let mut t = BKTree::new();
    let words = ["book", "books", "cake", "boo", "cape", "cart", "boon", "cook"];
    for w in words {
        t.insert(w);
    }
    assert_eq!(sorted(t.search("bok", 1)), vec!["boo", "book"]);
    assert_eq!(sorted(t.search("book", 0)), vec!["book"]);
    assert_eq!(sorted(t.search("book", 1)), vec!["boo", "book", "books", "boon", "cook"]);
    assert_eq!(t.search("zzzzzz", 1), Vec::<&str>::new());
    for q in ["bok", "cap", "boo", "x", ""] {
        for d in 0..4usize {
            let expected: Vec<&str> = sorted(words.iter().copied().filter(|w| levenshtein_distance(q, w) <= d).collect());
            assert_eq!(sorted(t.search(q, d)), expected);
        }
    }
}

#[test]
fn empty_bktree_finds_nothing() {
    let t = BKTree::new();
    assert_eq!(t.search("anything", 3), Vec::<&str>::new());
}

#[test]
fn the_first_match_is_the_least_end_of_a_near_stretch() {
    assert_eq!(FuzzyMatcher::new("ab", 1).find("b"), Some(0));
    assert_eq!(FuzzyMatcher::new("abc", 3).find("xyz"), Some(0));
    let texts = ["the quick brown fox", "uick", "ick", "qiuck", "xquixk", "k"];
    for k in 0..4usize {
        let m = FuzzyMatcher::new("quick", k);
        for t in texts {
            let expected = (0..t.len())
                .find(|&end| (0..=end + 1).any(|start| levenshtein_distance("quick", &t[start..end + 1]) <= k));
            assert_eq!(m.find(t), expected, "{} {}", t, k);
        }
    }
}

#[test]
fn one_more_error_never_finds_later() {
    let texts = ["the quick brown fox", "qiuck", "quack", "uick", "nothing here"];
    for t in texts {
        for k in 0..3usize {
            if let Some(i) = FuzzyMatcher::new("quick", k).find(t) {
                let j = FuzzyMatcher::new("quick", k + 1).find(t).expect("still a match");
                assert!(j <= i, "{} {}", t, k);
            }
        }
    }
}

#[test]
fn only_the_first_64_pattern_bytes_count() {
    let head = "a".repeat(64);
    let p1 = format!("{}xyz", head);
    let p2 = format!("{}qq", head);
    let text = format!("bb{}cc", "a".repeat(70));
    for k in 0..3usize {
        assert_eq!(FuzzyMatcher::new(&p1, k).find(&text), FuzzyMatcher::new(&p2, k).find(&text));
        assert_eq!(FuzzyMatcher::new(&p1, k).find(&text), FuzzyMatcher::new(&head, k).find(&text));
    }
}

#[test]
fn bktree_reports_words_in_walk_order() {
    let mut t = BKTree::new();
    for w in ["book", "books", "boo", "cook"] {
        t.insert(w);
    }
    assert_eq!(t.search("book", 1), vec!["book", "books", "boo", "cook"]);
    assert_eq!(t.search("boo", 1), vec!["book", "boo"]);
}
