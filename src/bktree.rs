//! A BK-tree over tokens, indexed by edit distance.
use vstd::prelude::*;
use crate::distance::{
    edit_distance, lemma_distance_symmetric, lemma_distance_triangle, lemma_distance_zero_iff_equal,
    levenshtein_distance,
};
pub use crate::node::Node;

verus! {

broadcast use vstd::std_specs::vec::group_vec_axioms, vstd::seq::group_seq_axioms;

/// The frequency table after one more occurrence of `w`: a new token starts
/// at one, a known one goes up by one.
pub open spec fn added(m: Map<Seq<char>, nat>, w: Seq<char>) -> Map<Seq<char>, nat> {
    if m.contains_key(w) {
        m.insert(w, m[w] + 1)
    } else {
        m.insert(w, 1)
    }
}

/// Whether one more occurrence of `w` keeps its frequency within `usize`.
pub open spec fn can_add(m: Map<Seq<char>, nat>, w: Seq<char>) -> bool {
    m.contains_key(w) ==> m[w] < usize::MAX
}

/// The frequency table of a token sequence: each distinct token with the
/// number of times it occurs.
pub open spec fn counts(ws: Seq<Seq<char>>) -> Map<Seq<char>, nat>
    decreases ws.len(),
{
    if ws.len() == 0 {
        Map::empty()
    } else {
        added(counts(ws.drop_last()), ws.last())
    }
}

/// `w` is a token of `m` within `radius` of the query `q`.
pub open spec fn within(m: Map<Seq<char>, nat>, q: Seq<char>, radius: nat, w: Seq<char>) -> bool {
    m.contains_key(w) && edit_distance(w, q) <= radius
}

/// Some token of `m` lies within `radius` of `q`.
pub open spec fn has_candidate(m: Map<Seq<char>, nat>, q: Seq<char>, radius: nat) -> bool {
    exists|w: Seq<char>| #[trigger] within(m, q, radius, w)
}

/// `w` is a best correction of `q`: within the radius, and no other token
/// within the radius is closer, or equally close and more frequent.
pub open spec fn is_best(m: Map<Seq<char>, nat>, q: Seq<char>, radius: nat, w: Seq<char>) -> bool {
    &&& within(m, q, radius, w)
    &&& forall|x: Seq<char>|
        #[trigger] within(m, q, radius, x) ==> edit_distance(w, q) < edit_distance(x, q) || (
        edit_distance(w, q) == edit_distance(x, q) && m[w] >= m[x])
}

/// The outcome of a bounded search for a query.
#[derive(Debug, PartialEq, Eq)]
pub enum Correction {
    /// The query is itself a vocabulary token.
    AlreadyCorrect,
    /// The best vocabulary token within the radius.
    Suggestion(String),
    /// No vocabulary token lies within the radius.
    NoSuggestion,
}

/// What a search of `m` for `q` within `radius` must report.
pub open spec fn correction_ok(m: Map<Seq<char>, nat>, q: Seq<char>, radius: nat, c: Correction) -> bool {
    match c {
        Correction::AlreadyCorrect => m.contains_key(q),
        Correction::NoSuggestion => !m.contains_key(q) && !has_candidate(m, q, radius),
        Correction::Suggestion(s) => !m.contains_key(q) && is_best(m, q, radius, s@),
    }
}

/// Why a tree could not be built.
#[derive(Debug, Clone, Copy, PartialEq, Eq)]
pub enum BuildError {
    /// The vocabulary holds no token to seed the root with.
    EmptyVocabulary,
}

/// A BK-tree: a root node that owns the whole tree.
pub struct BKTree {
    root: Node,
}

impl View for BKTree {
    type V = Map<Seq<char>, nat>;

    /// Every stored token with its frequency.
    closed spec fn view(&self) -> Map<Seq<char>, nat> {
        self.root.entries()
    }
}

impl BKTree {
    /// The BK-tree invariant holds throughout the tree.
    pub closed spec fn wf(&self) -> bool {
        self.root.wf()
    }

    /// The number of nodes in the tree.
    pub closed spec fn node_count(&self) -> nat {
        self.root.size()
    }

    /// Each node holds a distinct token: the nodes are as many as the
    /// stored tokens.
    pub proof fn lemma_node_count(&self)
        requires
            self.wf(),
        ensures
            self@.dom().finite(),
            self.node_count() == self@.dom().len(),
    {
        self.root.lemma_size_upto(self.root.children@.len() as int);
    }

    /// Creates a tree from a root node.
    pub fn new(root: Node) -> (r: BKTree)
        requires
            root.wf(),
        ensures
            r.wf(),
            r@ == root.entries(),
    {
        BKTree { root: root }
    }

    /// Records one occurrence of `word`: a new token gets a node of its own
    /// with frequency one, a known token's frequency goes up by one.
    pub fn add(&mut self, word: &str)
        requires
            old(self).wf(),
            can_add(old(self)@, word@),
        ensures
            final(self).wf(),
            final(self)@ == added(old(self)@, word@),
    {
        traverse_tree(&mut self.root, word);
    }

    /// The closest token within `d` of `word`, the most frequent among
    /// equally close ones, with its distance.
    fn best_candidate<'a>(&'a self, word: &str, d: &usize) -> (r: Option<(usize, &'a Node)>)
        requires
            self.wf(),
        ensures
            r is None <==> !has_candidate(self@, word@, *d as nat),
            r matches Some(e) ==> candidate_ok(self@, e, word@, *d as nat) && is_best(self@, word@, *d as nat, e.1.word@),
    {
        let ghost m = self@;
        let mut v: Vec<(usize, &'a Node)> = Vec::new();
        recursive_search(&self.root, &mut v, word, d);
        proof {
            assert(v@.take(0) =~= Seq::<(usize, &Node)>::empty());
        }
        if v.len() == 0 {
            proof {
                assert forall|w: Seq<char>| !(#[trigger] within(m, word@, *d as nat, w)) by {
                    if within(m, word@, *d as nat, w) {
                        assert(collected(v@, 0, w));
                    }
                }
            }
            return None;
        }
        let mut b: usize = 0;
        let mut k: usize = 1;
        while k < v.len()
            invariant
                b < k <= v@.len(),
                forall|j: int| 0 <= j < k ==> v@[b as int].0 < (#[trigger] v@[j]).0 || (v@[b as int].0 == v@[j].0
                    && v@[b as int].1.freq >= v@[j].1.freq),
            decreases v@.len() - k,
        {
            if v[k].0 < v[b].0 || (v[k].0 == v[b].0 && v[k].1.freq > v[b].1.freq) {
                b = k;
            }
            k = k + 1;
        }
        let best = v[b];
        proof {
            assert(candidate_ok(m, v@[b as int], word@, *d as nat));
            assert(within(m, word@, *d as nat, best.1.word@));
            assert forall|x: Seq<char>| #[trigger] within(m, word@, *d as nat, x) implies edit_distance(best.1.word@, word@)
                < edit_distance(x, word@) || (edit_distance(best.1.word@, word@) == edit_distance(x, word@)
                && m[best.1.word@] >= m[x]) by {
                assert(collected(v@, 0, x));
                let j = choose|j: int| 0 <= j < v@.len() && (#[trigger] v@[j]).1.word@ == x;
                assert(candidate_ok(m, v@[j], word@, *d as nat));
            }
        }
        Some(best)
    }

    /// The best correction of `word` within distance `d`: the empty string
    /// when `word` is itself stored, `"-"` when no stored token is within
    /// `d`, and otherwise the closest stored token, the most frequent among
    /// equally close ones.
    pub fn search(&self, word: &str, d: &usize) -> (r: &str)
        requires
            self.wf(),
        ensures
            self@.contains_key(word@) ==> r@ == ""@,
            !self@.contains_key(word@) && !has_candidate(self@, word@, *d as nat) ==> r@ == "-"@,
            !self@.contains_key(word@) && has_candidate(self@, word@, *d as nat) ==> is_best(
                self@,
                word@,
                *d as nat,
                r@,
            ),
    {
        match self.best_candidate(word, d) {
            None => {
                proof {
                    if self@.contains_key(word@) {
                        lemma_distance_zero_iff_equal(word@, word@);
                        assert(within(self@, word@, *d as nat, word@));
                    }
                }
                "-"
            },
            Some(best) => {
                proof {
                    lemma_distance_zero_iff_equal(best.1.word@, word@);
                    if self@.contains_key(word@) {
                        lemma_distance_zero_iff_equal(word@, word@);
                        assert(within(self@, word@, *d as nat, word@));
                    }
                }
                if best.0 == 0 {
                    ""
                } else {
                    best.1.word.as_str()
                }
            },
        }
    }

    /// The outcome of a search for `word` within `radius`.
    pub fn query(&self, word: &str, radius: usize) -> (r: Correction)
        requires
            self.wf(),
        ensures
            correction_ok(self@, word@, radius as nat, r),
    {
        match self.best_candidate(word, &radius) {
            None => {
                proof {
                    if self@.contains_key(word@) {
                        lemma_distance_zero_iff_equal(word@, word@);
                        assert(within(self@, word@, radius as nat, word@));
                    }
                }
                Correction::NoSuggestion
            },
            Some(best) => {
                proof {
                    lemma_distance_zero_iff_equal(best.1.word@, word@);
                    if self@.contains_key(word@) {
                        lemma_distance_zero_iff_equal(word@, word@);
                        assert(within(self@, word@, radius as nat, word@));
                    }
                }
                if best.0 == 0 {
                    Correction::AlreadyCorrect
                } else {
                    Correction::Suggestion(best.1.word.clone())
                }
            },
        }
    }
}

/// The frequency table after `n` more occurrences of `w`.
pub open spec fn added_times(m: Map<Seq<char>, nat>, w: Seq<char>, n: nat) -> Map<Seq<char>, nat>
    decreases n,
{
    if n == 0 {
        m
    } else {
        added(added_times(m, w, (n - 1) as nat), w)
    }
}

/// The frequency that `m` records for `w`, zero for an absent token.
pub open spec fn freq_in(m: Map<Seq<char>, nat>, w: Seq<char>) -> nat {
    if m.contains_key(w) {
        m[w]
    } else {
        0
    }
}

proof fn lemma_added_times(m: Map<Seq<char>, nat>, w: Seq<char>, n: nat)
    requires
        n >= 1,
    ensures
        added_times(m, w, n).dom() == added(m, w).dom(),
        added_times(m, w, n).contains_key(w),
        added_times(m, w, n)[w] == freq_in(m, w) + n,
        forall|x: Seq<char>| x != w && #[trigger] m.contains_key(x) ==> added_times(m, w, n)[x] == m[x],
    decreases n,
{
    if n > 1 {
        lemma_added_times(m, w, (n - 1) as nat);
        assert(added_times(m, w, n).dom() =~= added(m, w).dom());
    } else {
        assert(added_times(m, w, 0) == m);
    }
}

/// Inserting one token `n` times (`n >= 1`) leaves the tree with as many
/// nodes as inserting it once, and only that token's frequency differs: it
/// has grown by `n`.
pub proof fn lemma_repeated_insertion(
    m: Map<Seq<char>, nat>,
    w: Seq<char>,
    n: nat,
    once: BKTree,
    repeated: BKTree,
)
    requires
        n >= 1,
        once.wf(),
        repeated.wf(),
        once@ == added(m, w),
        repeated@ == added_times(m, w, n),
    ensures
        repeated.node_count() == once.node_count(),
        repeated@.dom() == once@.dom(),
        repeated@[w] == freq_in(m, w) + n,
        forall|x: Seq<char>| x != w && #[trigger] once@.contains_key(x) ==> repeated@[x] == once@[x],
{
    lemma_added_times(m, w, n);
    once.lemma_node_count();
    repeated.lemma_node_count();
}

/// Of two tokens within the radius and equally far from the query, the less
/// frequent one is never the best correction.
pub proof fn lemma_frequency_breaks_ties(
    m: Map<Seq<char>, nat>,
    q: Seq<char>,
    radius: nat,
    frequent: Seq<char>,
    rare: Seq<char>,
)
    requires
        within(m, q, radius, frequent),
        within(m, q, radius, rare),
        edit_distance(frequent, q) == edit_distance(rare, q),
        m[frequent] > m[rare],
    ensures
        !is_best(m, q, radius, rare),
{
}

/// No token occurs in `ws` more often than `ws` is long.
proof fn lemma_counts_bounded(ws: Seq<Seq<char>>, w: Seq<char>)
    ensures
        counts(ws).contains_key(w) ==> counts(ws)[w] <= ws.len(),
    decreases ws.len(),
{
    if ws.len() > 0 {
        lemma_counts_bounded(ws.drop_last(), w);
    }
}

/// The tokens that a vocabulary of strings holds.
pub open spec fn tokens(vocabulary: Seq<String>) -> Seq<Seq<char>> {
    vocabulary.map_values(|s: String| s@)
}

/// Builds a tree from a vocabulary: the first token seeds the root, then
/// every token is inserted in order, so each distinct token ends up with the
/// number of times it occurs. An empty vocabulary is refused.
pub fn build(vocabulary: &Vec<String>) -> (r: Result<BKTree, BuildError>)
    ensures
        vocabulary@.len() == 0 <==> r is Err,
        r matches Err(e) ==> e == BuildError::EmptyVocabulary,
        r matches Ok(t) ==> t.wf() && t@ == counts(tokens(vocabulary@)),
{
    if vocabulary.len() == 0 {
        return Err(BuildError::EmptyVocabulary);
    }
    let ghost ws = tokens(vocabulary@);
    let root = Node::new(vocabulary[0].clone(), 0, Vec::new());
    let mut tree = BKTree::new(root);
    proof {
        assert(root.entries() =~= map![ws[0] => 0nat]);
    }
    for i in 0..vocabulary.len()
        invariant
            ws == tokens(vocabulary@),
            ws.len() >= 1,
            tree.wf(),
            i == 0 ==> tree@ == map![ws[0] => 0nat],
            i > 0 ==> tree@ == counts(ws.take(i as int)),
    {
        proof {
            if i > 0 {
                lemma_counts_bounded(ws.take(i as int), ws[i as int]);
            }
        }
        tree.add(vocabulary[i].as_str());
        proof {
            assert(ws.take(i + 1).drop_last() =~= ws.take(i as int));
            if i == 0 {
                assert(ws.take(0) =~= Seq::<Seq<char>>::empty());
                assert(counts(ws.take(0)) == Map::<Seq<char>, nat>::empty());
                assert(ws.take(1).last() == ws[0]);
                assert(vocabulary@[0]@ == ws[0]);
                assert(tree@ =~= counts(ws.take(1)));
            }
        }
    }
    proof {
        assert(ws.take(ws.len() as int) =~= ws);
    }
    Ok(tree)
}

/// Inserts one occurrence of `word` below `node`.
fn traverse_tree(node: &mut Node, word: &str)
    requires
        old(node).wf(),
        can_add(old(node).entries(), word@),
    ensures
        final(node).wf(),
        final(node).word == old(node).word,
        final(node).entries() == added(old(node).entries(), word@),
    decreases *old(node),
{
    let dist = levenshtein_distance(node.word.as_str(), word);
    let ghost pre = *node;
    let ghost len = pre.children@.len() as int;
    proof {
        lemma_distance_zero_iff_equal(pre.word@, word@);
        pre.lemma_entries_upto_word_value(len);
    }
    if dist == 0 {
        node.freq = node.freq + 1;
        proof {
            pre.lemma_entries_upto_freq(*node, len);
        }
        return;
    }
    let mut i: usize = 0;
    while i < node.children.len() && node.children[i].0 != dist
        invariant
            *node == pre,
            i <= node.children@.len(),
            forall|j: int| 0 <= j < i ==> node.key(j) != dist,
        decreases node.children@.len() - i,
    {
        i = i + 1;
    }
    if i < node.children.len() {
        proof {
            assert forall|j: int| 0 <= j < len && j != i implies !(#[trigger] pre.child(j).entries().contains_key(word@)) by {
                if pre.child(j).entries().contains_key(word@) {
                    assert(pre.key(j) != dist);
                }
            }
            if pre.child(i as int).entries().contains_key(word@) {
                pre.lemma_entries_upto_child_value(len, i as int, word@);
            } else {
                pre.lemma_entries_upto_contains(len, word@);
            }
        }
        traverse_tree(&mut node.children[i].1, word);
        proof {
            pre.lemma_entries_upto_replace(*node, i as int, word@, added(pre.child(i as int).entries(), word@)[word@], len);
        }
    } else {
        let child = Node::new(word.to_owned(), 1, Vec::new());
        proof {
            assert(child.children@.len() == 0);
            assert(child.wf());
        }
        node.children.push((dist, child));
        proof {
            pre.lemma_entries_upto_contains(len, word@);
            pre.lemma_entries_upto_prefix(*node, len);
            assert(!pre.entries().contains_key(word@)) by {
                if pre.entries().contains_key(word@) {
                    let j = choose|j: int| 0 <= j < len && #[trigger] pre.child(j).entries().contains_key(word@);
                    assert(pre.key(j) != dist);
                }
            }
            assert(node.child(len).entries() =~= map![word@ => 1nat]);
            assert(node.entries() =~= added(pre.entries(), word@));
        }
    }
}

/// A collected candidate: a token of `m` at the recorded distance from the
/// query, within the radius, with the frequency that `m` records.
pub open spec fn candidate_ok(m: Map<Seq<char>, nat>, e: (usize, &Node), q: Seq<char>, radius: nat) -> bool {
    &&& m.contains_key(e.1.word@)
    &&& m[e.1.word@] == e.1.freq
    &&& e.0 == edit_distance(e.1.word@, q)
    &&& e.0 <= radius
}

/// Some candidate at index `from` or later holds the token `w`.
pub open spec fn collected(v: Seq<(usize, &Node)>, from: int, w: Seq<char>) -> bool {
    exists|k: int| from <= k < v.len() && (#[trigger] v[k]).1.word@ == w
}

/// No token below a child whose key lies outside `[cur - radius, cur + radius]`
/// is within `radius` of the query, where `cur` is the node's own distance.
proof fn lemma_prune(node: Node, i: int, q: Seq<char>, radius: nat, w: Seq<char>)
    requires
        node.wf(),
        0 <= i < node.children@.len(),
        node.child(i).entries().contains_key(w),
        node.key(i) + radius < edit_distance(node.word@, q) || node.key(i) > edit_distance(node.word@, q) + radius,
    ensures
        edit_distance(w, q) > radius,
{
    lemma_distance_triangle(node.word@, w, q);
    lemma_distance_triangle(node.word@, q, w);
    lemma_distance_symmetric(q, w);
}

/// Appends to `v` every token below `node` that lies within `d` of `word`,
/// with its distance, skipping the subtrees that the triangle inequality
/// rules out.
fn recursive_search<'a>(node: &'a Node, v: &mut Vec<(usize, &'a Node)>, word: &str, d: &usize)
    requires
        node.wf(),
    ensures
        final(v)@.len() >= old(v)@.len(),
        final(v)@.take(old(v)@.len() as int) == old(v)@,
        forall|k: int|
            old(v)@.len() <= k < final(v)@.len() ==> candidate_ok(
                node.entries(),
                #[trigger] final(v)@[k],
                word@,
                *d as nat,
            ),
        forall|w: Seq<char>|
            #[trigger] node.entries().contains_key(w) && edit_distance(w, word@) <= *d ==> collected(
                final(v)@,
                old(v)@.len() as int,
                w,
            ),
    decreases node,
{
    let ghost start = v@.len() as int;
    let ghost len = node.children@.len() as int;
    let ghost m = node.entries();
    let cur_dist = levenshtein_distance(node.word.as_str(), word);
    let mut min_dist: usize = 0;
    if cur_dist > *d {
        min_dist = cur_dist - *d;
    }
    proof {
        node.lemma_entries_upto_word_value(len);
    }
    if cur_dist <= *d {
        v.push((cur_dist, node));
        proof {
            assert(v@[start].1.word@ == node.word@);
        }
    }
    let mut i: usize = 0;
    while i < node.children.len()
        invariant
            node.wf(),
            m == node.entries(),
            len == node.children@.len(),
            0 <= start <= v@.len(),
            v@.take(start) == old(v)@,
            cur_dist == edit_distance(node.word@, word@),
            min_dist == (if cur_dist > *d { cur_dist - *d } else { 0 }),
            forall|k: int| start <= k < v@.len() ==> candidate_ok(m, #[trigger] v@[k], word@, *d as nat),
            edit_distance(node.word@, word@) <= *d ==> collected(v@, start, node.word@),
            forall|j: int, w: Seq<char>|
                0 <= j < i && #[trigger] node.child(j).entries().contains_key(w) && edit_distance(w, word@) <= *d
                    ==> collected(v@, start, w),
        decreases len - i,
    {
        let key = node.children[i].0;
        let ghost before = v@;
        if key >= min_dist && (key <= cur_dist || key - cur_dist <= *d) {
            recursive_search(&node.children[i].1, v, word, d);
            proof {
                assert forall|k: int| 0 <= k < before.len() implies v@[k] == before[k] by {
                    assert(v@.take(before.len() as int)[k] == v@[k]);
                }
                assert(v@.take(start) =~= before.take(start));
                assert forall|k: int| start <= k < v@.len() implies candidate_ok(m, #[trigger] v@[k], word@, *d as nat) by {
                    if k < before.len() {
                        assert(v@[k] == before[k]);
                    } else {
                        node.lemma_entries_upto_child_value(len, i as int, v@[k].1.word@);
                    }
                }
                assert forall|w: Seq<char>| collected(before, start, w) implies collected(v@, start, w) by {
                    let k = choose|k: int| start <= k < before.len() && (#[trigger] before[k]).1.word@ == w;
                    assert(v@[k] == before[k]);
                }
            }
        } else {
            proof {
                assert forall|w: Seq<char>| node.child(i as int).entries().contains_key(w) implies edit_distance(w, word@) > *d by {
                    lemma_prune(*node, i as int, word@, *d as nat, w);
                }
            }
        }
        i = i + 1;
    }
    proof {
        assert forall|w: Seq<char>| #[trigger] m.contains_key(w) && edit_distance(w, word@) <= *d implies collected(v@, start, w) by {
            node.lemma_entries_upto_contains(len, w);
            if w != node.word@ {
                let j = choose|j: int| 0 <= j < len && #[trigger] node.child(j).entries().contains_key(w);
            }
        }
    }
}

} // verus!
