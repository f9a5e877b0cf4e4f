//! Nodes of a BK-tree and their mathematical model.
//!
//! A node owns its token, the number of times that token was inserted, and
//! its children, each stored under its distance from this node's token. The
//! children are kept in the order in which they were attached; no two share a
//! distance.
use vstd::prelude::*;
use crate::distance::{edit_distance, lemma_distance_identity};

verus! {

broadcast use vstd::std_specs::vec::group_vec_axioms, vstd::seq::group_seq_axioms;

pub struct Node {
    pub word: String,
    pub freq: usize,
    pub children: Vec<(usize, Node)>,
}

impl Node {
    /// The distance key of the `i`-th child.
    pub open spec fn key(self, i: int) -> usize {
        self.children@[i].0
    }

    /// The `i`-th child.
    pub open spec fn child(self, i: int) -> Node {
        self.children@[i].1
    }

    /// Tokens and frequencies held by this node and by its first `k`
    /// children's subtrees.
    pub open spec fn entries_upto(self, k: int) -> Map<Seq<char>, nat>
        decreases self, k,
    {
        if 0 < k <= self.children@.len() {
            self.entries_upto(k - 1).union_prefer_right(
                self.child(k - 1).entries_upto(self.child(k - 1).children@.len() as int),
            )
        } else {
            map![self.word@ => self.freq as nat]
        }
    }

    /// Tokens and frequencies held in the subtree rooted here.
    pub open spec fn entries(self) -> Map<Seq<char>, nat> {
        self.entries_upto(self.children@.len() as int)
    }

    /// The number of nodes in this node and its first `k` children's
    /// subtrees.
    pub open spec fn size_upto(self, k: int) -> nat
        decreases self, k,
    {
        if 0 < k <= self.children@.len() {
            self.size_upto(k - 1) + self.child(k - 1).size_upto(
                self.child(k - 1).children@.len() as int,
            )
        } else {
            1
        }
    }

    /// The number of nodes in the subtree rooted here.
    pub open spec fn size(self) -> nat {
        self.size_upto(self.children@.len() as int)
    }

    /// The BK-tree invariant: every token below the child stored under `k`
    /// is exactly `k` away from this node's token, keys are positive and
    /// distinct, and every child is itself well formed.
    pub open spec fn wf(self) -> bool
        decreases self,
    {
        &&& forall|i: int|
            #![trigger self.children@[i]]
            0 <= i < self.children@.len() ==> {
                &&& self.key(i) > 0
                &&& self.child(i).wf()
                &&& forall|w: Seq<char>|
                    #[trigger] self.child(i).entries().contains_key(w) ==> edit_distance(
                        self.word@,
                        w,
                    ) == self.key(i)
            }
        &&& forall|i: int, j: int|
            0 <= i < j < self.children@.len() ==> self.key(i) != self.key(j)
    }

    /// A token is held in the first `k` children's part of the subtree if
    /// and only if it is this node's token or one of those children holds it.
    pub proof fn lemma_entries_upto_contains(self, k: int, w: Seq<char>)
        requires
            0 <= k <= self.children@.len(),
        ensures
            self.entries_upto(k).contains_key(w) <==> (w == self.word@ || exists|i: int|
                0 <= i < k && #[trigger] self.child(i).entries().contains_key(w)),
        decreases k,
    {
        if k > 0 {
            self.lemma_entries_upto_contains(k - 1, w);
            if self.entries_upto(k).contains_key(w) && w != self.word@ {
                if !self.entries_upto(k - 1).contains_key(w) {
                    assert(self.child(k - 1).entries().contains_key(w));
                }
            }
        }
    }

    /// In a well-formed node, no token lies below two different children.
    pub proof fn lemma_children_disjoint(self, i: int, j: int, w: Seq<char>)
        requires
            self.wf(),
            0 <= i < self.children@.len(),
            0 <= j < self.children@.len(),
            self.child(i).entries().contains_key(w),
            self.child(j).entries().contains_key(w),
        ensures
            i == j,
    {
        if i < j {
            assert(self.key(i) != self.key(j));
        } else if j < i {
            assert(self.key(j) != self.key(i));
        }
    }

    /// In a well-formed node, this node's token lies below no child.
    pub proof fn lemma_word_not_below(self, i: int)
        requires
            self.wf(),
            0 <= i < self.children@.len(),
        ensures
            !self.child(i).entries().contains_key(self.word@),
    {
        lemma_distance_identity(self.word@);
    }

    /// A token below a child has the frequency that the child records.
    pub proof fn lemma_entries_upto_child_value(self, k: int, i: int, w: Seq<char>)
        requires
            self.wf(),
            0 <= i < k <= self.children@.len(),
            self.child(i).entries().contains_key(w),
        ensures
            self.entries_upto(k).contains_key(w),
            self.entries_upto(k)[w] == self.child(i).entries()[w],
        decreases k,
    {
        if i < k - 1 {
            self.lemma_entries_upto_child_value(k - 1, i, w);
            if self.child(k - 1).entries().contains_key(w) {
                self.lemma_children_disjoint(i, k - 1, w);
            }
        }
    }

    /// This node's token has this node's frequency.
    pub proof fn lemma_entries_upto_word_value(self, k: int)
        requires
            self.wf(),
            0 <= k <= self.children@.len(),
        ensures
            self.entries_upto(k).contains_key(self.word@),
            self.entries_upto(k)[self.word@] == self.freq,
        decreases k,
    {
        if k > 0 {
            self.lemma_entries_upto_word_value(k - 1);
            self.lemma_word_not_below(k - 1);
        }
    }

    /// The first `k` children's part of the subtree depends on this node's
    /// token and frequency and on those children alone.
    pub proof fn lemma_entries_upto_prefix(self, other: Node, k: int)
        requires
            other.word@ == self.word@,
            other.freq == self.freq,
            0 <= k <= self.children@.len(),
            k <= other.children@.len(),
            forall|j: int| 0 <= j < k ==> other.children@[j] == self.children@[j],
        ensures
            other.entries_upto(k) == self.entries_upto(k),
        decreases k,
    {
        if k > 0 {
            self.lemma_entries_upto_prefix(other, k - 1);
            assert(other.child(k - 1) == self.child(k - 1));
        }
    }

    /// Changing only the frequency of a well-formed node changes only the
    /// frequency recorded for its token.
    pub proof fn lemma_entries_upto_freq(self, other: Node, k: int)
        requires
            self.wf(),
            other.word@ == self.word@,
            other.children@ == self.children@,
            0 <= k <= self.children@.len(),
        ensures
            other.entries_upto(k) == self.entries_upto(k).insert(self.word@, other.freq as nat),
        decreases k,
    {
        if k > 0 {
            self.lemma_entries_upto_freq(other, k - 1);
            self.lemma_word_not_below(k - 1);
            assert(other.child(k - 1) == self.child(k - 1));
            assert(other.entries_upto(k) =~= self.entries_upto(k).insert(
                self.word@,
                other.freq as nat,
            ));
        } else {
            assert(other.entries_upto(k) =~= self.entries_upto(k).insert(
                self.word@,
                other.freq as nat,
            ));
        }
    }

    /// Replacing child `i` by one that holds one more entry `(w, f)` adds
    /// that entry to every part of the subtree that includes child `i`.
    pub proof fn lemma_entries_upto_replace(
        self,
        other: Node,
        i: int,
        w: Seq<char>,
        f: nat,
        k: int,
    )
        requires
            self.wf(),
            other.word@ == self.word@,
            other.freq == self.freq,
            0 <= i < k <= self.children@.len(),
            other.children@.len() == self.children@.len(),
            forall|j: int| 0 <= j < self.children@.len() && j != i ==> other.children@[j] == self.children@[j],
            other.child(i).entries() == self.child(i).entries().insert(w, f),
            w != self.word@,
            forall|j: int| 0 <= j < self.children@.len() && j != i ==> !(#[trigger] self.child(j).entries().contains_key(w)),
        ensures
            other.entries_upto(k) == self.entries_upto(k).insert(w, f),
        decreases k,
    {
        if k - 1 == i {
            self.lemma_entries_upto_prefix(other, i);
            assert(other.entries_upto(k) =~= self.entries_upto(k).insert(w, f));
        } else {
            self.lemma_entries_upto_replace(other, i, w, f, k - 1);
            assert(!self.child(k - 1).entries().contains_key(w));
            assert(other.child(k - 1) == self.child(k - 1));
            assert(other.entries_upto(k) =~= self.entries_upto(k).insert(w, f));
        }
    }

    /// In a well-formed subtree each node holds a token of its own: the
    /// nodes are exactly as many as the distinct tokens.
    pub proof fn lemma_size_upto(self, k: int)
        requires
            self.wf(),
            0 <= k <= self.children@.len(),
        ensures
            self.entries_upto(k).dom().finite(),
            self.entries_upto(k).dom().len() == self.size_upto(k),
        decreases self, k,
    {
        if k > 0 {
            let c = self.child(k - 1);
            self.lemma_size_upto(k - 1);
            c.lemma_size_upto(c.children@.len() as int);
            let a = self.entries_upto(k - 1).dom();
            let b = c.entries().dom();
            assert(self.entries_upto(k).dom() =~= a + b);
            assert(a.disjoint(b)) by {
                assert forall|w: Seq<char>| a.contains(w) implies !b.contains(w) by {
                    self.lemma_entries_upto_contains(k - 1, w);
                    if w == self.word@ {
                        self.lemma_word_not_below(k - 1);
                    } else {
                        let j = choose|j: int| 0 <= j < k - 1 && #[trigger] self.child(j).entries().contains_key(w);
                        if b.contains(w) {
                            self.lemma_children_disjoint(j, k - 1, w);
                        }
                    }
                }
            }
            vstd::set_lib::lemma_set_disjoint_lens(a, b);
        } else {
            assert(self.entries_upto(k).dom() =~= set![self.word@]);
        }
    }

    /// Creates a node from its parts.
    pub fn new(word: String, freq: usize, children: Vec<(usize, Node)>) -> (r: Node)
        ensures
            r.word == word,
            r.freq == freq,
            r.children == children,
    {
        Node { word: word, freq: freq, children: children }
    }
}

} // verus!
