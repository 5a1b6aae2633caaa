//! A BK-tree over the vocabulary: every word below a node hangs under the edge
//! labelled with its edit distance to that node, so a search for the words
//! within a distance of a query can skip every edge the triangle inequality rules out.
use vstd::prelude::*;

use crate::pfr::fuzzy_search::{
    edit_distance, lemma_edit_distance_bound, lemma_edit_distance_symmetric,
    lemma_edit_distance_triangle, lemma_edit_distance_zero,
};
use crate::skanda::fuzzy_search::levenshtein_distance;

verus! {

broadcast use vstd::string::group_string_axioms;

struct BKNode {
    word: String,
    children: Vec<(usize, usize)>,  // (distance, node index)
}

/// BK-tree for fuzzy vocabulary search.
pub struct BKTree {
    nodes: Vec<BKNode>,
    /// For each node but the root: its parent, the label of the edge from the
    /// parent, and the edge's slot in the parent's child list.
    parent: Ghost<Seq<(int, nat, int)>>,
}

/// Node `a` lies on the path from the root to node `k` (`k` itself included).
spec fn descends(parent: Seq<(int, nat, int)>, k: int, a: int) -> bool
    decreases k,
{
    if k == a {
        true
    } else if k <= 0 || k >= parent.len() {
        false
    } else {
        let p = parent[k].0;
        if 0 <= p < k {
            descends(parent, p, a)
        } else {
            false
        }
    }
}

/// The label of the edge out of `a` on the path from `a` down to `k`.
spec fn label_toward(parent: Seq<(int, nat, int)>, a: int, k: int) -> nat
    decreases k,
{
    if k <= 0 || k >= parent.len() {
        0
    } else {
        let p = parent[k].0;
        if p == a {
            parent[k].1
        } else if 0 <= p < k {
            label_toward(parent, a, p)
        } else {
            0
        }
    }
}

/// The child of `a` on the path from `a` down to `k`.
spec fn child_toward(parent: Seq<(int, nat, int)>, a: int, k: int) -> int
    decreases k,
{
    if k <= 0 || k >= parent.len() {
        k
    } else {
        let p = parent[k].0;
        if p == a {
            k
        } else if 0 <= p < k {
            child_toward(parent, a, p)
        } else {
            k
        }
    }
}

/// Every node but the root has a parent with a smaller index.
spec fn parents_before(parent: Seq<(int, nat, int)>) -> bool {
    forall|k: int| 0 < k < parent.len() ==> 0 <= #[trigger] parent[k].0 < k
}

proof fn lemma_child_toward(parent: Seq<(int, nat, int)>, a: int, k: int)
    requires
        parents_before(parent),
        0 <= a,
        0 <= k < parent.len(),
        k != a,
        descends(parent, k, a),
    ensures
        a < child_toward(parent, a, k) <= k,
        parent[child_toward(parent, a, k)].0 == a,
        parent[child_toward(parent, a, k)].1 == label_toward(parent, a, k),
        descends(parent, k, child_toward(parent, a, k)),
    decreases k,
{
    let p = parent[k].0;
    if p != a {
        lemma_child_toward(parent, a, p);
        let c = child_toward(parent, a, p);
        assert(descends(parent, p, p));
        assert(descends(parent, k, p));
        lemma_descends_trans(parent, k, p, c);
    }
}

proof fn lemma_descends_trans(parent: Seq<(int, nat, int)>, k: int, m: int, a: int)
    requires
        parents_before(parent),
        0 <= k < parent.len(),
        descends(parent, k, m),
        descends(parent, m, a),
    ensures
        descends(parent, k, a),
    decreases k,
{
    if k != m {
        lemma_descends_trans(parent, parent[k].0, m, a);
    }
}

proof fn lemma_descends_below(parent: Seq<(int, nat, int)>, k: int, a: int)
    requires
        parents_before(parent),
        0 <= k < parent.len(),
        descends(parent, k, a),
    ensures
        a <= k,
    decreases k,
{
    if k != a {
        lemma_descends_below(parent, parent[k].0, a);
    }
}

/// Adding a node changes no path among the nodes already there.
proof fn lemma_push_frame(parent: Seq<(int, nat, int)>, x: (int, nat, int), k: int, a: int)
    requires
        parents_before(parent),
        0 <= k < parent.len(),
    ensures
        descends(parent.push(x), k, a) == descends(parent, k, a),
        label_toward(parent.push(x), a, k) == label_toward(parent, a, k),
    decreases k,
{
    let p2 = parent.push(x);
    assert(p2[k] == parent[k]);
    if k > 0 {
        lemma_push_frame(parent, x, parent[k].0, a);
    }
}

/// The children of a node whose edge labels lie in `low ..= high`, in list order.
pub open spec fn pick(children: Seq<(usize, usize)>, low: int, high: int) -> Seq<usize>
    decreases children.len(),
{
    if children.len() == 0 {
        seq![]
    } else {
        let rest = pick(children.drop_last(), low, high);
        let e = children.last();
        if low <= e.0 && e.0 <= high {
            rest.push(e.1)
        } else {
            rest
        }
    }
}

/// The words a search within `d` edits of `q` reports, in order, starting from
/// the node stack `stack` with at most `fuel` nodes left to visit: it takes the
/// node on top of the stack, reports its word when within `d`, and stacks the
/// children whose edge labels lie within `d` of the node word's distance to `q`.
pub open spec fn walk(
    words: Seq<Seq<char>>,
    edges: Seq<Seq<(usize, usize)>>,
    q: Seq<char>,
    d: nat,
    stack: Seq<usize>,
    fuel: nat,
) -> Seq<Seq<char>>
    decreases fuel,
{
    if fuel == 0 || stack.len() == 0 {
        seq![]
    } else {
        let a = stack.last() as int;
        let dist = edit_distance(q, words[a]);
        let low: int = if dist >= d { dist - d } else { 0 };
        let rest = stack.drop_last() + pick(edges[a], low, (dist + d) as int);
        (if dist <= d { seq![words[a]] } else { seq![] }) + walk(words, edges, q, d, rest, (fuel - 1) as nat)
    }
}

/// The words a search reports, in order: the walk from the root.
pub open spec fn search_order(words: Seq<Seq<char>>, edges: Seq<Seq<(usize, usize)>>, q: Seq<char>, d: nat) -> Seq<Seq<char>> {
    if words.len() == 0 {
        seq![]
    } else {
        walk(words, edges, q, d, seq![0usize], words.len())
    }
}

impl BKTree {
    /// The words in the tree, in the order they were first inserted.
    pub closed spec fn words(&self) -> Seq<Seq<char>> {
        self.nodes@.map_values(|n: BKNode| n.word@)
    }

    /// Each node's child list, in the order the children were added: the label
    /// of the edge (the child word's distance to the node's word) and the
    /// child's index. Node `k` holds `words()[k]`; node 0 is the root.
    pub closed spec fn edges(&self) -> Seq<Seq<(usize, usize)>> {
        self.nodes@.map_values(|n: BKNode| n.children@)
    }

    /// The tree's structure holds together: edges point forward to nodes whose
    /// recorded parent they are, labels out of a node are distinct, every node
    /// is reachable from the root, each edge is labelled with the distance of
    /// every word below it to the word above it, and no word occurs twice.
    pub closed spec fn wf(&self) -> bool {
        let n = self.nodes@.len();
        let parent = self.parent@;
        let ws = self.words();
        &&& parent.len() == n
        &&& n <= usize::MAX
        &&& parents_before(parent)
        &&& forall|k: int| 0 <= k < n ==> (#[trigger] ws[k]).len() < usize::MAX
        &&& forall|a: int, i: int|
            0 <= a < n && 0 <= i < self.nodes@[a].children@.len() ==> {
                let e = #[trigger] self.nodes@[a].children@[i];
                &&& a < e.1 < n
                &&& parent[e.1 as int] == (a, e.0 as nat, i)
            }
        &&& forall|a: int, i: int, i2: int|
            0 <= a < n && 0 <= i < self.nodes@[a].children@.len() && 0 <= i2
                < self.nodes@[a].children@.len() && i != i2 ==> #[trigger] self.nodes@[a].children@[i].0
                != #[trigger] self.nodes@[a].children@[i2].0
        &&& forall|k: int|
            0 < k < n ==> {
                let (p, d, slot) = #[trigger] parent[k];
                &&& 0 <= slot < self.nodes@[p].children@.len()
                &&& self.nodes@[p].children@[slot] == (d as usize, k as usize)
            }
        &&& forall|k: int| 0 <= k < n ==> #[trigger] descends(parent, k, 0)
        &&& forall|a: int, k: int|
            0 <= a < k < n && #[trigger] descends(parent, k, a) ==> edit_distance(ws[k], ws[a])
                == label_toward(parent, a, k)
        &&& forall|k1: int, k2: int| 0 <= k1 < n && 0 <= k2 < n && k1 != k2 ==> ws[k1] != ws[k2]
    }

    /// An empty tree.
    pub fn new() -> (t: Self)
        ensures
            t.wf(),
            t.words() == Seq::<Seq<char>>::empty(),
    {
        let t = BKTree { nodes: Vec::new(), parent: Ghost(Seq::empty()) };
        assert(t.words() =~= Seq::<Seq<char>>::empty());
        t
    }

    /// The number of distinct words in the tree.
    pub fn len(&self) -> (n: usize)
        requires
            self.wf(),
        ensures
            n == self.words().len(),
            n == self.words().to_set().len(),
    {
        proof {
            self.lemma_words_distinct();
        }
        self.nodes.len()
    }

    proof fn lemma_words_distinct(&self)
        requires
            self.wf(),
        ensures
            self.words().to_set().len() == self.words().len(),
    {
        self.words().unique_seq_to_set();
    }

    /// Adds `word`; a word already present is not added again.
    pub fn insert(&mut self, word: &str)
        requires
            old(self).wf(),
            word@.len() < usize::MAX,
            old(self).words().len() < usize::MAX,
        ensures
            final(self).wf(),
            final(self).words() == if old(self).words().contains(word@) {
                old(self).words()
            } else {
                old(self).words().push(word@)
            },
    {
        let ghost w = word@;
        let ghost old_words = self.words();
        if self.nodes.len() == 0 {
            let owned = word.to_string();
            self.nodes.push(BKNode { word: owned, children: Vec::new() });
            self.parent = Ghost(Seq::empty().push((0int, 0nat, 0int)));
            assert(self.words() =~= seq![w]);
            assert(old_words =~= Seq::<Seq<char>>::empty());
            return;
        }
        let mut idx: usize = 0;
        loop
            invariant
                self.wf(),
                self.words() == old_words,
                old(self).words() == old_words,
                old_words.len() < usize::MAX,
                w == word@,
                w.len() < usize::MAX,
                0 <= idx < self.nodes@.len(),
                forall|a: int|
                    0 <= a < idx && #[trigger] descends(self.parent@, idx as int, a) ==> edit_distance(
                        w,
                        self.words()[a],
                    ) == label_toward(self.parent@, a, idx as int),
                forall|k: int|
                    0 <= k < self.nodes@.len() && #[trigger] self.words()[k] == w ==> descends(
                        self.parent@,
                        k,
                        idx as int,
                    ),
            decreases self.nodes@.len() - idx,
        {
            let ghost parent = self.parent@;
            let ghost ws = self.words();
            assert(ws[idx as int] == self.nodes@[idx as int].word@);
            let dist = levenshtein_distance(word, self.nodes[idx].word.as_str());
            if dist == 0 {
                proof {
                    lemma_edit_distance_zero(w, ws[idx as int]);
                    assert(old_words.contains(w));
                    assert(self.words() == old(self).words());
                    assert(old(self).words().contains(word@));
                }
                return;
            }
            // A word already in the tree would lie below `idx` along the edge
            // labelled `dist`.
            proof {
                if exists|k: int| 0 <= k < ws.len() && #[trigger] ws[k] == w {
                    let k = choose|k: int| 0 <= k < ws.len() && #[trigger] ws[k] == w;
                    assert(descends(parent, k, idx as int));
                    if k == idx {
                        lemma_edit_distance_zero(w, ws[idx as int]);
                    }
                    lemma_descends_below(parent, k, idx as int);
                    lemma_child_toward(parent, idx as int, k);
                }
            }
            let mut found: Option<usize> = None;
            let mut i: usize = 0;
            let nch = self.nodes[idx].children.len();
            while i < nch
                invariant
                    self.wf(),
                    0 <= idx < self.nodes@.len(),
                    nch == self.nodes@[idx as int].children@.len(),
                    i <= nch,
                    found is None ==> forall|j: int| 0 <= j < i ==> (#[trigger] self.nodes@[idx as int].children@[j]).0 != dist,
                    found matches Some(c) ==> exists|j: int| 0 <= j < nch && #[trigger] self.nodes@[idx as int].children@[j] == (dist, c),
                ensures
                    found is None ==> forall|j: int| 0 <= j < nch ==> (#[trigger] self.nodes@[idx as int].children@[j]).0 != dist,
                    found matches Some(c) ==> exists|j: int| 0 <= j < nch && #[trigger] self.nodes@[idx as int].children@[j] == (dist, c),
                decreases nch - i,
            {
                let (d, ci) = self.nodes[idx].children[i];
                if d == dist {
                    found = Some(ci);
                    break;
                }
                i = i + 1;
            }
            match found {
                Some(child_idx) => {
                    proof {
                        let j = choose|j: int| 0 <= j < nch && #[trigger] self.nodes@[idx as int].children@[j] == (dist, child_idx);
                        let c = child_idx as int;
                        assert(parent[c] == (idx as int, dist as nat, j));
                        assert(idx < c);
                        assert forall|a: int|
                            0 <= a < c && #[trigger] descends(parent, c, a) implies edit_distance(
                                w,
                                ws[a],
                            ) == label_toward(parent, a, c) by {
                            if a != idx as int {
                                assert(descends(parent, idx as int, a));
                                lemma_descends_below(parent, idx as int, a);
                            }
                        }
                        assert forall|k: int|
                            0 <= k < ws.len() && #[trigger] ws[k] == w implies descends(parent, k, c) by {
                            lemma_descends_below(parent, k, idx as int);
                            if k == idx as int {
                                lemma_edit_distance_zero(w, ws[idx as int]);
                            }
                            lemma_child_toward(parent, idx as int, k);
                            let c2 = child_toward(parent, idx as int, k);
                            let (pp, dd, slot) = parent[c2];
                            assert(c2 > 0);
                            assert(pp == idx as int);
                            assert(0 <= slot < self.nodes@[pp].children@.len());
                            assert(self.nodes@[idx as int].children@[slot] == (dd as usize, c2 as usize));
                            if slot != j {
                                assert(self.nodes@[idx as int].children@[slot].0 != self.nodes@[idx as int].children@[j].0);
                            }
                        }
                    }
                    idx = child_idx;
                },
                None => {
                    let new_idx = self.nodes.len();
                    let ghost slot = nch as int;
                    proof {
                        assert forall|k: int| 0 <= k < ws.len() implies #[trigger] ws[k] != w by {
                            if ws[k] == w {
                                lemma_descends_below(parent, k, idx as int);
                                if k == idx as int {
                                    lemma_edit_distance_zero(w, ws[idx as int]);
                                }
                                lemma_child_toward(parent, idx as int, k);
                                let c2 = child_toward(parent, idx as int, k);
                                let (pp, dd, sl) = parent[c2];
                                assert(self.nodes@[idx as int].children@[sl] == (dd as usize, c2 as usize));
                                assert(self.nodes@[idx as int].children@[sl].0 != dist);
                            }
                        }
                    }
                    self.insert_leaf(word, idx, dist);
                    return;
                },
            }
        }
    }

    /// Hangs a new node for `word` under `idx`, on an edge labelled `dist`.
    fn insert_leaf(&mut self, word: &str, idx: usize, dist: usize)
        requires
            old(self).wf(),
            word@.len() < usize::MAX,
            old(self).words().len() < usize::MAX,
            0 <= idx < old(self).nodes@.len(),
            dist == edit_distance(word@, old(self).words()[idx as int]),
            forall|j: int|
                0 <= j < old(self).nodes@[idx as int].children@.len() ==> (
                #[trigger] old(self).nodes@[idx as int].children@[j]).0 != dist,
            forall|a: int|
                0 <= a < idx && #[trigger] descends(old(self).parent@, idx as int, a) ==> edit_distance(
                    word@,
                    old(self).words()[a],
                ) == label_toward(old(self).parent@, a, idx as int),
            forall|k: int| 0 <= k < old(self).nodes@.len() ==> #[trigger] old(self).words()[k] != word@,
        ensures
            final(self).wf(),
            final(self).words() == old(self).words().push(word@),
    {
        let ghost w = word@;
        let ghost parent = self.parent@;
        let ghost ws = self.words();
        let ghost old_nodes = self.nodes@;
        let new_idx = self.nodes.len();
        let slot = self.nodes[idx].children.len();
        self.nodes[idx].children.push((dist, new_idx));
        let owned = word.to_string();
        self.nodes.push(BKNode { word: owned, children: Vec::new() });
        let ghost x = (idx as int, dist as nat, slot as int);
        self.parent = Ghost(parent.push(x));
        let ghost p2 = self.parent@;
        let ghost n2 = self.nodes@.len();
        assert(self.words() =~= ws.push(w));
        assert forall|k: int| 0 <= k < n2 - 1 implies #[trigger] self.nodes@[k].children@ == old_nodes[k].children@
            || (k == idx && self.nodes@[k].children@ == old_nodes[k].children@.push((dist, new_idx))) by {
        }
        assert(parents_before(p2));
        assert forall|a: int, k: int|
            0 <= a < k < n2 && #[trigger] descends(p2, k, a) implies edit_distance(self.words()[k], self.words()[a])
                == label_toward(p2, a, k) by {
            if k < n2 - 1 {
                lemma_push_frame(parent, x, k, a);
            } else {
                assert(p2[k] == x);
                if a != idx as int {
                    lemma_push_frame(parent, x, idx as int, a);
                    assert(descends(parent, idx as int, a));
                    lemma_descends_below(parent, idx as int, a);
                } else {
                    lemma_edit_distance_symmetric(w, ws[idx as int]);
                }
            }
        }
        assert forall|k: int| 0 <= k < n2 implies #[trigger] descends(p2, k, 0) by {
            if k < n2 - 1 {
                lemma_push_frame(parent, x, k, 0);
            } else {
                lemma_push_frame(parent, x, idx as int, 0);
                assert(descends(parent, idx as int, 0));
            }
        }
        assert forall|a: int, i: int|
            0 <= a < n2 && 0 <= i < self.nodes@[a].children@.len() implies {
                let e = #[trigger] self.nodes@[a].children@[i];
                &&& a < e.1 < n2
                &&& p2[e.1 as int] == (a, e.0 as nat, i)
            } by {
            if a == idx as int && i == slot as int {
            } else {
                let e = self.nodes@[a].children@[i];
                assert(e == old_nodes[a].children@[i]);
            }
        }
        assert forall|k: int|
            0 < k < n2 implies {
                let (p, d, sl) = #[trigger] p2[k];
                &&& 0 <= sl < self.nodes@[p].children@.len()
                &&& self.nodes@[p].children@[sl] == (d as usize, k as usize)
            } by {
            if k < n2 - 1 {
                assert(p2[k] == parent[k]);
            }
        }
        assert forall|a: int, i: int, i2: int|
            0 <= a < n2 && 0 <= i < self.nodes@[a].children@.len() && 0 <= i2
                < self.nodes@[a].children@.len() && i != i2 implies #[trigger] self.nodes@[a].children@[i].0
                != #[trigger] self.nodes@[a].children@[i2].0 by {
        }
        assert forall|k: int| 0 <= k < n2 implies (#[trigger] self.words()[k]).len() < usize::MAX by {
        }
    }

    /// One visit of the search keeps its loop invariant: `idx` moves from the
    /// stack to the visited set, its word joins the results when close enough,
    /// and every child whose edge label lies in `low ..= high` is pushed.
    proof fn lemma_search_step(
        &self,
        q: Seq<char>,
        max_dist: usize,
        idx: int,
        dist: int,
        low: int,
        high: int,
        old_stack: Seq<usize>,
        mid: Seq<usize>,
        slots: Seq<int>,
        new_stack: Seq<usize>,
        popped: Set<int>,
        old_results: Seq<&str>,
        new_results: Seq<&str>,
    )
        requires
            self.wf(),
            0 <= idx < self.nodes@.len(),
            old_stack.len() > 0,
            old_stack.last() == idx,
            mid == old_stack.drop_last(),
            dist == edit_distance(q, self.words()[idx]),
            low == if dist >= max_dist { dist - max_dist } else { 0 },
            high == dist + max_dist,
            dist <= max_dist ==> new_results == old_results.push(new_results.last()) && new_results.last()@
                == self.words()[idx],
            dist > max_dist ==> new_results == old_results,
            new_stack.len() == mid.len() + slots.len(),
            forall|j: int| 0 <= j < mid.len() ==> #[trigger] new_stack[j] == mid[j],
            forall|t: int| 0 <= t < slots.len() ==> 0 <= #[trigger] slots[t] < self.nodes@[idx].children@.len()
                && new_stack[mid.len() + t] == self.nodes@[idx].children@[slots[t]].1,
            forall|t1: int, t2: int| 0 <= t1 < t2 < slots.len() ==> #[trigger] slots[t1] < #[trigger] slots[t2],
            forall|ci: int|
                0 <= ci < self.nodes@[idx].children@.len() && low <= (
                #[trigger] self.nodes@[idx].children@[ci]).0 <= high ==> slots.contains(ci),
            !popped.contains(idx),
            forall|j: int|
                0 <= j < old_stack.len() ==> 0 <= #[trigger] old_stack[j] < self.nodes@.len()
                    && !popped.contains(old_stack[j] as int),
            forall|j: int, j2: int|
                0 <= j < old_stack.len() && 0 <= j2 < old_stack.len() && j != j2
                    ==> #[trigger] old_stack[j] != #[trigger] old_stack[j2],
            forall|c: int|
                0 < c < self.nodes@.len() && (popped.contains(c) || old_stack.contains(c as usize))
                    ==> #[trigger] popped.contains(self.parent@[c].0),
            forall|r: int|
                0 <= r < old_results.len() ==> #[trigger] edit_distance(q, old_results[r]@) <= max_dist
                    && self.words().contains(old_results[r]@),
            forall|k: int|
                0 <= k < self.nodes@.len() && #[trigger] edit_distance(q, self.words()[k]) <= max_dist
                    ==> old_results.map_values(|s: &str| s@).contains(self.words()[k]) || exists|j: int|
                    0 <= j < old_stack.len() && descends(self.parent@, k, #[trigger] old_stack[j] as int),
        ensures
            ({
                let popped2 = popped.insert(idx);
                &&& forall|j: int|
                    0 <= j < new_stack.len() ==> 0 <= #[trigger] new_stack[j] < self.nodes@.len()
                        && !popped2.contains(new_stack[j] as int)
                &&& forall|j: int, j2: int|
                    0 <= j < new_stack.len() && 0 <= j2 < new_stack.len() && j != j2
                        ==> #[trigger] new_stack[j] != #[trigger] new_stack[j2]
                &&& forall|c: int|
                    0 < c < self.nodes@.len() && (popped2.contains(c) || new_stack.contains(c as usize))
                        ==> #[trigger] popped2.contains(self.parent@[c].0)
                &&& forall|r: int|
                    0 <= r < new_results.len() ==> #[trigger] edit_distance(q, new_results[r]@) <= max_dist
                        && self.words().contains(new_results[r]@)
                &&& forall|k: int|
                    0 <= k < self.nodes@.len() && #[trigger] edit_distance(q, self.words()[k]) <= max_dist
                        ==> new_results.map_values(|s: &str| s@).contains(self.words()[k]) || exists|j: int|
                        0 <= j < new_stack.len() && descends(self.parent@, k, #[trigger] new_stack[j] as int)
            }),
    {
        let n = self.nodes@.len() as int;
        let parent = self.parent@;
        let ws = self.words();
        let popped2 = popped.insert(idx);
        let ch = self.nodes@[idx].children@;
        assert(old_stack =~= mid.push(idx as usize));
        // Every pushed node is a child of `idx`, so not visited and not on the stack before.
        assert forall|j: int| mid.len() <= j < new_stack.len() implies 0 <= #[trigger] new_stack[j] < n
            && !popped2.contains(new_stack[j] as int) && !old_stack.contains(new_stack[j]) && parent[new_stack[j] as int].0 == idx by {
            let t = j - mid.len();
            let ci = slots[t];
            assert(new_stack[mid.len() + t] == ch[ci].1);
            let c = new_stack[j] as int;
            assert(ch[ci] == self.nodes@[idx].children@[ci]);
            assert(parent[c].0 == idx);
            if old_stack.contains(new_stack[j]) {
                assert(popped.contains(idx));
            }
            if popped.contains(c) {
                assert(popped.contains(idx));
            }
        }
        assert forall|j: int| 0 <= j < new_stack.len() implies 0 <= #[trigger] new_stack[j] < n
            && !popped2.contains(new_stack[j] as int) by {
            if j < mid.len() {
                assert(new_stack[j] == old_stack[j]);
                if new_stack[j] as int == idx {
                    assert(old_stack[j] == old_stack[old_stack.len() - 1]);
                }
            }
        }
        assert forall|j: int, j2: int|
            0 <= j < new_stack.len() && 0 <= j2 < new_stack.len() && j != j2 implies #[trigger] new_stack[j]
            != #[trigger] new_stack[j2] by {
            if j < mid.len() && j2 < mid.len() {
                assert(new_stack[j] == old_stack[j] && new_stack[j2] == old_stack[j2]);
            } else if j < mid.len() {
                assert(new_stack[j] == old_stack[j]);
                assert(!old_stack.contains(new_stack[j2]));
            } else if j2 < mid.len() {
                assert(new_stack[j2] == old_stack[j2]);
                assert(!old_stack.contains(new_stack[j]));
            } else {
                let t1 = j - mid.len();
                let t2 = j2 - mid.len();
                let ci = slots[t1];
                let ci2 = slots[t2];
                if t1 < t2 {
                    assert(slots[t1] < slots[t2]);
                } else {
                    assert(slots[t2] < slots[t1]);
                }
                assert(new_stack[mid.len() + t1] == ch[ci].1);
                assert(new_stack[mid.len() + t2] == ch[ci2].1);
                assert(ch[ci] == self.nodes@[idx].children@[ci]);
                assert(ch[ci2] == self.nodes@[idx].children@[ci2]);
                assert(parent[ch[ci].1 as int].2 == ci);
                assert(parent[ch[ci2].1 as int].2 == ci2);
            }
        }
        assert forall|c: int|
            0 < c < n && (popped2.contains(c) || new_stack.contains(c as usize)) implies #[trigger] popped2.contains(
            parent[c].0) by {
            if new_stack.contains(c as usize) {
                let j = choose|j: int| 0 <= j < new_stack.len() && #[trigger] new_stack[j] == c as usize;
                if j < mid.len() {
                    assert(old_stack[j] == c as usize);
                    assert(old_stack.contains(c as usize));
                }
            } else if c != idx {
                assert(popped.contains(c));
            } else {
                assert(old_stack[old_stack.len() - 1] == c as usize);
                assert(old_stack.contains(c as usize));
            }
        }
        let old_view = old_results.map_values(|s: &str| s@);
        let new_view = new_results.map_values(|s: &str| s@);
        assert forall|r: int| 0 <= r < new_results.len() implies #[trigger] edit_distance(q, new_results[r]@)
            <= max_dist && ws.contains(new_results[r]@) by {
            if r < old_results.len() {
                assert(new_results[r] == old_results[r]);
                assert(edit_distance(q, old_results[r]@) <= max_dist && ws.contains(old_results[r]@));
            } else {
                assert(dist <= max_dist);
                assert(new_results[r] == new_results.last());
                assert(ws[idx] == new_results[r]@);
                assert(edit_distance(q, ws[idx]) <= max_dist);
                assert(ws.contains(ws[idx]));
            }
        }
        assert forall|x: Seq<char>| old_view.contains(x) implies new_view.contains(x) by {
            let r = choose|r: int| 0 <= r < old_view.len() && #[trigger] old_view[r] == x;
            assert(new_results[r] == old_results[r]);
            assert(new_view[r] == x);
        }
        assert forall|k: int|
            0 <= k < n && #[trigger] edit_distance(q, ws[k]) <= max_dist implies new_view.contains(ws[k])
            || exists|j: int| 0 <= j < new_stack.len() && descends(parent, k, #[trigger] new_stack[j] as int) by {
            if !old_view.contains(ws[k]) {
                let j = choose|j: int| 0 <= j < old_stack.len() && descends(parent, k, #[trigger] old_stack[j] as int);
                if j < mid.len() {
                    assert(new_stack[j] == old_stack[j]);
                } else if k == idx {
                    assert(new_view[new_view.len() - 1] == ws[idx]);
                } else {
                    lemma_descends_below(parent, k, idx);
                    lemma_child_toward(parent, idx, k);
                    let c = child_toward(parent, idx, k);
                    let (pp, lbl, slot) = parent[c];
                    assert(ch[slot] == (lbl as usize, c as usize));
                    assert(edit_distance(ws[k], ws[idx]) == lbl);
                    lemma_edit_distance_triangle(q, ws[k], ws[idx]);
                    lemma_edit_distance_triangle(ws[k], q, ws[idx]);
                    lemma_edit_distance_symmetric(ws[k], q);
                    assert(low <= ch[slot].0 <= high);
                    assert(slots.contains(slot));
                    let t = choose|t: int| 0 <= t < slots.len() && #[trigger] slots[t] == slot;
                    let j2 = mid.len() + t;
                    assert(new_stack[j2] == ch[slot].1);
                    assert(descends(parent, k, new_stack[j2] as int));
                }
            }
        }
    }

    /// Returns all words within `max_dist` edits of `query`.
    pub fn search<'a>(&'a self, query: &str, max_dist: usize) -> (res: Vec<&'a str>)
        requires
            self.wf(),
            query@.len() < usize::MAX,
            query@.len() + max_dist <= usize::MAX,
            forall|k: int| 0 <= k < self.words().len() ==> (#[trigger] self.words()[k]).len() + max_dist
                <= usize::MAX,
        ensures
            res@.map_values(|s: &str| s@).to_set() == self.words().to_set().filter(
                |w: Seq<char>| edit_distance(query@, w) <= max_dist,
            ),
            forall|i: int, j: int| 0 <= i < j < res@.len() ==> (#[trigger] res@[i])@ != (#[trigger] res@[j])@,
            res@.map_values(|s: &str| s@) == search_order(self.words(), self.edges(), query@, max_dist as nat),
    {
        let mut results: Vec<&'a str> = Vec::new();
        if self.nodes.len() == 0 {
            assert(results@.map_values(|s: &str| s@).to_set() =~= self.words().to_set().filter(
                |w: Seq<char>| edit_distance(query@, w) <= max_dist,
            ));
            return results;
        }
        let ghost q = query@;
        let ghost parent = self.parent@;
        let ghost ws = self.words();
        let ghost n = self.nodes@.len() as int;
        let ghost edges = self.edges();
        let ghost target = search_order(ws, edges, q, max_dist as nat);
        let mut stack: Vec<usize> = Vec::new();
        stack.push(0);
        let ghost mut popped: Set<int> = Set::empty();
        proof {
            assert(stack@ =~= seq![0usize]);
            assert(results@.map_values(|s: &str| s@) =~= Seq::<Seq<char>>::empty());
            assert(results@.map_values(|s: &str| s@) + walk(ws, edges, q, max_dist as nat, stack@, (n - popped.len()) as nat) =~= target);
        }
        proof {
            vstd::set_lib::lemma_int_range(0, n);
            assert forall|k: int| 0 <= k < n && #[trigger] edit_distance(q, ws[k]) <= max_dist implies
                results@.map_values(|s: &str| s@).contains(ws[k]) || exists|j: int| 0 <= j < stack@.len()
                && descends(parent, k, #[trigger] stack@[j] as int) by {
                assert(stack@[0] == 0);
                assert(descends(parent, k, stack@[0] as int));
            }
        }
        loop
            invariant
                self.wf(),
                q == query@,
                parent == self.parent@,
                ws == self.words(),
                n == self.nodes@.len() > 0,
                q.len() < usize::MAX,
                q.len() + max_dist <= usize::MAX,
                forall|k: int| 0 <= k < n ==> (#[trigger] ws[k]).len() + max_dist <= usize::MAX,
                vstd::set_lib::set_int_range(0, n).finite(),
                vstd::set_lib::set_int_range(0, n).len() == n,
                popped.subset_of(vstd::set_lib::set_int_range(0, n)),
                forall|j: int| 0 <= j < stack@.len() ==> 0 <= #[trigger] stack@[j] < n && !popped.contains(stack@[j] as int),
                forall|j: int, j2: int| 0 <= j < stack@.len() && 0 <= j2 < stack@.len() && j != j2 ==> #[trigger] stack@[j] != #[trigger] stack@[j2],
                forall|c: int| 0 < c < n && (popped.contains(c) || stack@.contains(c as usize)) ==> #[trigger] popped.contains(parent[c].0),
                forall|r: int| 0 <= r < results@.len() ==> #[trigger] edit_distance(q, results@[r]@) <= max_dist && ws.contains(results@[r]@),
                forall|k: int| 0 <= k < n && #[trigger] edit_distance(q, ws[k]) <= max_dist ==>
                    results@.map_values(|s: &str| s@).contains(ws[k]) || exists|j: int| 0 <= j < stack@.len() && descends(parent, k, #[trigger] stack@[j] as int),
                forall|r: int| 0 <= r < results@.len() ==> exists|k: int| 0 <= k < n && popped.contains(k) && #[trigger] ws[k] == (#[trigger] results@[r])@,
                forall|r1: int, r2: int| 0 <= r1 < r2 < results@.len() ==> (#[trigger] results@[r1])@ != (#[trigger] results@[r2])@,
                edges == self.edges(),
                target == search_order(ws, edges, q, max_dist as nat),
                popped.finite(),
                popped.len() <= n,
                results@.map_values(|s: &str| s@) + walk(ws, edges, q, max_dist as nat, stack@, (n - popped.len()) as nat) == target,
            ensures
                forall|r: int| 0 <= r < results@.len() ==> #[trigger] edit_distance(q, results@[r]@) <= max_dist && ws.contains(results@[r]@),
                forall|k: int| 0 <= k < n && #[trigger] edit_distance(q, ws[k]) <= max_dist ==>
                    results@.map_values(|s: &str| s@).contains(ws[k]),
                forall|r1: int, r2: int| 0 <= r1 < r2 < results@.len() ==> (#[trigger] results@[r1])@ != (#[trigger] results@[r2])@,
                results@.map_values(|s: &str| s@) == target,
            decreases n - popped.len(),
        {
            let ghost old_stack = stack@;
            let ghost old_results = results@;
            match stack.pop() {
                None => {
                    assert(old_stack.len() == 0);
                    proof {
                        let rv = results@.map_values(|s: &str| s@);
                        assert(walk(ws, edges, q, max_dist as nat, stack@, (n - popped.len()) as nat) =~= Seq::<Seq<char>>::empty());
                        assert(rv + Seq::<Seq<char>>::empty() =~= rv);
                    }
                    break;
                },
                Some(idx) => {
                    proof {
                        assert(old_stack.last() == idx);
                        assert(stack@ =~= old_stack.drop_last());
                    }
                    let node = &self.nodes[idx];
                    assert(ws[idx as int] == node.word@);
                    let dist = levenshtein_distance(query, node.word.as_str());
                    let ghost f: nat = (n - popped.len()) as nat;
                    let ghost old_rv = results@.map_values(|s: &str| s@);
                    proof {
                        assert(!popped.contains(idx as int));
                        vstd::set_lib::lemma_len_subset(popped.insert(idx as int), vstd::set_lib::set_int_range(0, n));
                        assert(popped.insert(idx as int).len() == popped.len() + 1);
                        assert(f >= 1);
                    }
                    if dist <= max_dist {
                        results.push(node.word.as_str());
                        proof {
                            assert forall|r1: int, r2: int| 0 <= r1 < r2 < results@.len() implies (#[trigger] results@[r1])@
                                != (#[trigger] results@[r2])@ by {
                                if r2 == results@.len() - 1 {
                                    assert(results@[r1] == old_results[r1]);
                                    let k = choose|k: int| 0 <= k < n && popped.contains(k) && #[trigger] ws[k] == old_results[r1]@;
                                    assert(k != idx);
                                    assert(ws[k] != ws[idx as int]);
                                } else {
                                    assert(results@[r1] == old_results[r1] && results@[r2] == old_results[r2]);
                                }
                            }
                        }
                    }
                    proof {
                        lemma_edit_distance_bound(q, ws[idx as int]);
                    }
                    let low = dist.saturating_sub(max_dist);
                    let high = dist + max_dist;
                    let ghost mid = stack@;
                    let ghost mut slots: Seq<int> = Seq::empty();
                    let nch = node.children.len();
                    let mut i: usize = 0;
                    while i < nch
                        invariant
                            self.wf(),
                            node == self.nodes@[idx as int],
                            nch == node.children@.len(),
                            i <= nch,
                            0 <= idx < n,
                            n == self.nodes@.len(),
                            stack@.len() == mid.len() + slots.len(),
                            forall|j: int| 0 <= j < mid.len() ==> #[trigger] stack@[j] == mid[j],
                            forall|t: int| 0 <= t < slots.len() ==> 0 <= #[trigger] slots[t] < i
                                && stack@[mid.len() + t] == node.children@[slots[t]].1,
                            forall|t1: int, t2: int| 0 <= t1 < t2 < slots.len() ==> #[trigger] slots[t1] < #[trigger] slots[t2],
                            forall|ci: int| 0 <= ci < i && low <= (#[trigger] node.children@[ci]).0 <= high ==> slots.contains(ci),
                            stack@ == mid + pick(node.children@.take(i as int), low as int, high as int),
                        decreases nch - i,
                    {
                        let (child_dist, child_idx) = node.children[i];
                        let ghost old_slots = slots;
                        let ghost before_stack = stack@;
                        proof {
                            let tk = node.children@.take(i + 1);
                            assert(tk.drop_last() =~= node.children@.take(i as int));
                            assert(tk.last() == node.children@[i as int]);
                        }
                        if child_dist >= low && child_dist <= high {
                            stack.push(child_idx);
                            assert(stack@ =~= before_stack.push(child_idx));
                            proof {
                                slots = slots.push(i as int);
                                assert(slots[slots.len() - 1] == i);
                            }
                        }
                        proof {
                            assert forall|ci: int| 0 <= ci < i + 1 && low <= (#[trigger] node.children@[ci]).0 <= high implies slots.contains(ci) by {
                                if ci == i {
                                    assert(slots[slots.len() - 1] == i);
                                } else {
                                    assert(old_slots.contains(ci));
                                    let t = choose|t: int| 0 <= t < old_slots.len() && #[trigger] old_slots[t] == ci;
                                    assert(slots[t] == ci);
                                }
                            }
                        }
                        i = i + 1;
                    }
                    proof {
                        assert(node.children@.take(nch as int) =~= node.children@);
                        assert(node.children@ == edges[idx as int]);
                        let here = if dist <= max_dist { seq![ws[idx as int]] } else { Seq::<Seq<char>>::empty() };
                        let new_rv = results@.map_values(|s: &str| s@);
                        assert(new_rv =~= old_rv + here);
                        assert(old_stack.last() == idx);
                        assert(mid == old_stack.drop_last());
                        assert(walk(ws, edges, q, max_dist as nat, old_stack, f) == here + walk(ws, edges, q, max_dist as nat, stack@, (f - 1) as nat));
                        assert(new_rv + walk(ws, edges, q, max_dist as nat, stack@, (f - 1) as nat)
                            =~= old_rv + (here + walk(ws, edges, q, max_dist as nat, stack@, (f - 1) as nat)));
                    }
                    proof {
                        self.lemma_search_step(q, max_dist, idx as int, dist as int, low as int, high as int,
                            old_stack, mid, slots, stack@, popped, old_results, results@);
                        let ghost before = popped;
                        popped = popped.insert(idx as int);
                        assert forall|r: int| 0 <= r < results@.len() implies exists|k: int| 0 <= k < n && popped.contains(k)
                            && #[trigger] ws[k] == (#[trigger] results@[r])@ by {
                            if r < old_results.len() {
                                assert(results@[r] == old_results[r]);
                                let k = choose|k: int| 0 <= k < n && before.contains(k) && #[trigger] ws[k] == old_results[r]@;
                                assert(popped.contains(k));
                            } else {
                                assert(ws[idx as int] == results@[r]@);
                                assert(popped.contains(idx as int));
                            }
                        }
                        vstd::set_lib::lemma_len_subset(popped, vstd::set_lib::set_int_range(0, n));
                        vstd::set_lib::lemma_len_subset(popped.remove(idx as int), vstd::set_lib::set_int_range(0, n));
                    }
                },
            }
        }
        proof {
            let view = results@.map_values(|s: &str| s@);
            let got = view.to_set();
            let want = ws.to_set().filter(|w: Seq<char>| edit_distance(q, w) <= max_dist);
            assert forall|x: Seq<char>| got.contains(x) implies want.contains(x) by {
                assert(view.contains(x));
                let r = choose|r: int| 0 <= r < view.len() && #[trigger] view[r] == x;
                assert(view[r] == results@[r]@);
                assert(edit_distance(q, results@[r]@) <= max_dist && ws.contains(results@[r]@));
                assert(ws.to_set().contains(x));
            }
            assert forall|x: Seq<char>| want.contains(x) implies got.contains(x) by {
                assert(ws.to_set().contains(x));
                assert(ws.contains(x));
                let k = choose|k: int| 0 <= k < ws.len() && #[trigger] ws[k] == x;
                assert(edit_distance(q, ws[k]) <= max_dist);
                assert(view.contains(ws[k]));
            }
            assert(got =~= want);
        }
        proof {
            assert(target == search_order(self.words(), self.edges(), query@, max_dist as nat));
        }
        results
    }
}

} // verus!
