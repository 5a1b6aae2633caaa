use skanda_engine::pfr::bitset::BitSet;

fn positions(b: &BitSet) -> Vec<usize> {
    let mut out = Vec::new();
    for (k, w) in b.words.iter().enumerate() {
        for bit in 0..64 {
            if (w >> bit) & 1 == 1 {
                out.push(k * 64 + bit);
            }
        }
    }
    out
}

#[test]
fn new_set_is_empty_and_rounds_up() {
    let b = BitSet::new(100);
    assert_eq!(b.words.len(), 2);
    assert!(b.is_empty());
    assert_eq!(BitSet::new(0).words.len(), 0);
    assert_eq!(BitSet::new(64).words.len(), 1);
    assert_eq!(BitSet::new(65).words.len(), 2);
}

#[test]
fn set_ignores_positions_past_capacity() {
    let mut b = BitSet::new(100);
    b.set(3);
    b.set(200);
    assert_eq!(positions(&b), vec![3]);
    assert_eq!(b.words[0], 8);
    assert!(!b.is_empty());
}

#[test]
fn expand_reaches_exactly_d_each_way() {
    let mut b = BitSet::new(128);
    b.set(10);
    b.proximity_expand(2);
    assert_eq!(positions(&b), vec![8, 9, 10, 11, 12]);
    assert_eq!(b.words[0], 0x1F00);
}

#[test]
fn expand_stops_at_the_edges() {
    let mut b = BitSet::new(64);
    b.set(0);
    b.set(63);
    b.proximity_expand(3);
    assert_eq!(positions(&b), vec![0, 1, 2, 3, 60, 61, 62, 63]);
}

#[test]
fn expand_crosses_word_boundaries() {
    let mut b = BitSet::new(256);
    b.set(63);
    b.proximity_expand(1);
    assert_eq!(positions(&b), vec![62, 63, 64]);
    let mut c = BitSet::new(256);
    c.set(100);
    c.proximity_expand(250);
    assert_eq!(positions(&c), (0..256).collect::<Vec<usize>>());
}

#[test]
fn expand_by_zero_changes_nothing() {
    let mut b = BitSet::new(64);
    b.set(5);
    b.proximity_expand(0);
    assert_eq!(positions(&b), vec![5]);
}

#[test]
fn intersect_union_copy() {
    let mut a = BitSet::new(128);
    a.set(1);
    a.set(70);
    let mut b = BitSet::new(128);
    b.set(2);
    assert!(!a.intersects(&b));
    b.set(70);
    assert!(a.intersects(&b));
    let mut c = a.copy();
    assert_eq!(c.words, a.words);
    c.union_with(&b);
    assert_eq!(positions(&c), vec![1, 2, 70]);
    assert_eq!(positions(&a), vec![1, 70]);
}
