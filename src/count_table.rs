//! A table from words to how often each was seen.
//!
//! The table keeps its entries in insertion order, one entry per distinct
//! word, and is viewed as a map from a word's characters to its count.
use vstd::prelude::*;

verus! {

broadcast use vstd::std_specs::vec::group_vec_axioms, vstd::seq::group_seq_axioms;

/// The map that a sequence of entries denotes; a later entry for a word
/// overrides an earlier one.
pub open spec fn pairs_map(s: Seq<(String, usize)>) -> Map<Seq<char>, usize>
    decreases s.len(),
{
    if s.len() == 0 {
        Map::empty()
    } else {
        pairs_map(s.drop_last()).insert(s.last().0@, s.last().1)
    }
}

/// No word has two entries.
pub open spec fn keys_unique(s: Seq<(String, usize)>) -> bool {
    forall|i: int, j: int| 0 <= i < j < s.len() ==> s[i].0@ != s[j].0@
}

proof fn lemma_pairs_map_contains(s: Seq<(String, usize)>, k: Seq<char>)
    ensures
        pairs_map(s).contains_key(k) <==> exists|i: int| 0 <= i < s.len() && (#[trigger] s[i]).0@ == k,
    decreases s.len(),
{
    if s.len() > 0 {
        lemma_pairs_map_contains(s.drop_last(), k);
        if pairs_map(s.drop_last()).contains_key(k) {
            let i = choose|i: int| 0 <= i < s.drop_last().len() && (#[trigger] s.drop_last()[i]).0@ == k;
            assert(s[i] == s.drop_last()[i]);
        }
        if exists|i: int| 0 <= i < s.len() && (#[trigger] s[i]).0@ == k {
            let i = choose|i: int| 0 <= i < s.len() && (#[trigger] s[i]).0@ == k;
            if i < s.len() - 1 {
                assert(s.drop_last()[i] == s[i]);
            }
        }
    }
}

proof fn lemma_pairs_map_value(s: Seq<(String, usize)>, i: int)
    requires
        keys_unique(s),
        0 <= i < s.len(),
    ensures
        pairs_map(s).contains_key(s[i].0@),
        pairs_map(s)[s[i].0@] == s[i].1,
    decreases s.len(),
{
    if i < s.len() - 1 {
        assert(s.drop_last()[i] == s[i]);
        lemma_pairs_map_value(s.drop_last(), i);
    }
}

proof fn lemma_pairs_map_update(s: Seq<(String, usize)>, i: int, v: usize)
    requires
        keys_unique(s),
        0 <= i < s.len(),
    ensures
        pairs_map(s.update(i, (s[i].0, v))) == pairs_map(s).insert(s[i].0@, v),
    decreases s.len(),
{
    let t = s.update(i, (s[i].0, v));
    if i == s.len() - 1 {
        assert(t.drop_last() =~= s.drop_last());
        assert(pairs_map(t) =~= pairs_map(s).insert(s[i].0@, v));
    } else {
        assert(t.drop_last() =~= s.drop_last().update(i, (s[i].0, v)));
        lemma_pairs_map_update(s.drop_last(), i, v);
        assert(pairs_map(t) =~= pairs_map(s).insert(s[i].0@, v));
    }
}

proof fn lemma_pairs_map_len(s: Seq<(String, usize)>)
    requires
        keys_unique(s),
    ensures
        pairs_map(s).dom().finite(),
        pairs_map(s).dom().len() == s.len(),
    decreases s.len(),
{
    if s.len() > 0 {
        lemma_pairs_map_len(s.drop_last());
        lemma_pairs_map_contains(s.drop_last(), s.last().0@);
        if pairs_map(s.drop_last()).contains_key(s.last().0@) {
            let i = choose|i: int| 0 <= i < s.drop_last().len() && (#[trigger] s.drop_last()[i]).0@ == s.last().0@;
            assert(s[i] == s.drop_last()[i]);
        }
    }
}

#[derive(Debug)]
pub struct CountTable {
    entries: Vec<(String, usize)>,
}

impl View for CountTable {
    type V = Map<Seq<char>, usize>;

    /// Each word with its count.
    closed spec fn view(&self) -> Map<Seq<char>, usize> {
        pairs_map(self.entries@)
    }
}

impl CountTable {
    /// Each word has a single entry.
    #[verifier::type_invariant]
    spec fn wf(&self) -> bool {
        keys_unique(self.entries@)
    }

    /// The index of the entry for `key`, if there is one.
    fn find(&self, key: &String) -> (r: Option<usize>)
        ensures
            r is None <==> !self@.contains_key(key@),
            r matches Some(i) ==> i < self.entries@.len() && self.entries@[i as int].0@ == key@,
    {
        proof {
            use_type_invariant(self);
            lemma_pairs_map_contains(self.entries@, key@);
        }
        let mut i: usize = 0;
        while i < self.entries.len()
            invariant
                i <= self.entries@.len(),
                forall|j: int| 0 <= j < i ==> self.entries@[j].0@ != key@,
            decreases self.entries@.len() - i,
        {
            if self.entries[i].0 == *key {
                proof {
                    assert(self.entries@[i as int].0@ == key@);
                    lemma_pairs_map_contains(self.entries@, key@);
                }
                return Some(i);
            }
            i = i + 1;
        }
        None
    }

    /// An empty table.
    pub fn new() -> (r: CountTable)
        ensures
            r@ == Map::<Seq<char>, usize>::empty(),
    {
        CountTable { entries: Vec::new() }
    }

    /// Sets the count of `key` to `value`, returning the count it had.
    pub fn insert(&mut self, key: String, value: usize) -> (r: Option<usize>)
        ensures
            final(self)@ == old(self)@.insert(key@, value),
            r == (if old(self)@.contains_key(key@) { Some(old(self)@[key@]) } else { None }),
    {
        proof {
            use_type_invariant(&*self);
        }
        let found = self.find(&key);
        let mut entries: Vec<(String, usize)> = Vec::new();
        std::mem::swap(&mut entries, &mut self.entries);
        let ghost s = entries@;
        match found {
            Some(i) => {
                proof {
                    lemma_pairs_map_value(s, i as int);
                    lemma_pairs_map_update(s, i as int, value);
                }
                let previous = entries[i].1;
                entries[i].1 = value;
                proof {
                    assert(entries@ =~= s.update(i as int, (s[i as int].0, value)));
                }
                self.entries = entries;
                Some(previous)
            },
            None => {
                proof {
                    lemma_pairs_map_contains(s, key@);
                }
                entries.push((key, value));
                proof {
                    assert(entries@.drop_last() =~= s);
                }
                self.entries = entries;
                None
            },
        }
    }

    /// The count of `key`, if the table holds it.
    pub fn get(&self, key: &str) -> (r: Option<&usize>)
        ensures
            r is Some <==> self@.contains_key(key@),
            r matches Some(v) ==> *v == self@[key@],
    {
        let owned = key.to_owned();
        match self.find(&owned) {
            Some(i) => {
                proof {
                    use_type_invariant(self);
                    lemma_pairs_map_value(self.entries@, i as int);
                }
                Some(&self.entries[i].1)
            },
            None => None,
        }
    }

    /// Whether the table holds `key`.
    pub fn contains_key(&self, key: &str) -> (r: bool)
        ensures
            r == self@.contains_key(key@),
    {
        self.get(key).is_some()
    }

    /// The number of distinct words.
    pub fn len(&self) -> (r: usize)
        ensures
            self@.dom().finite(),
            r == self@.dom().len(),
    {
        proof {
            use_type_invariant(self);
            lemma_pairs_map_len(self.entries@);
        }
        self.entries.len()
    }
}

impl PartialEq for CountTable {
    /// Two tables are equal when they hold the same words with the same
    /// counts, whatever the order of their entries.
    fn eq(&self, other: &CountTable) -> (r: bool) {
        proof {
            use_type_invariant(self);
            use_type_invariant(other);
            lemma_pairs_map_len(self.entries@);
            lemma_pairs_map_len(other.entries@);
        }
        if self.entries.len() != other.entries.len() {
            return false;
        }
        let mut i: usize = 0;
        while i < self.entries.len()
            invariant
                keys_unique(self.entries@),
                i <= self.entries@.len(),
                forall|j: int|
                    0 <= j < i ==> other@.contains_key(#[trigger] self.entries@[j].0@) && other@[self.entries@[j].0@]
                        == self.entries@[j].1,
            decreases self.entries@.len() - i,
        {
            proof {
                lemma_pairs_map_value(self.entries@, i as int);
            }
            match other.get(self.entries[i].0.as_str()) {
                Some(count) => {
                    if *count != self.entries[i].1 {
                        return false;
                    }
                },
                None => {
                    return false;
                },
            }
            i = i + 1;
        }
        proof {
            assert forall|k: Seq<char>| #[trigger] self@.contains_key(k) implies other@.contains_key(k) && other@[k]
                == self@[k] by {
                lemma_pairs_map_contains(self.entries@, k);
                let j = choose|j: int| 0 <= j < self.entries@.len() && (#[trigger] self.entries@[j]).0@ == k;
                lemma_pairs_map_value(self.entries@, j);
            }
            vstd::set_lib::lemma_subset_equality(self@.dom(), other@.dom());
            assert(self@ =~= other@);
        }
        true
    }
}

impl vstd::std_specs::cmp::PartialEqSpecImpl for CountTable {
    open spec fn obeys_eq_spec() -> bool {
        true
    }

    open spec fn eq_spec(&self, other: &CountTable) -> bool {
        self@ == other@
    }
}

/// Counts one more occurrence of `word`: a new word starts at one.
pub fn increment_word(map: &mut CountTable, word: String)
    requires
        old(map)@.contains_key(word@) ==> old(map)@[word@] < usize::MAX,
    ensures
        final(map)@ == old(map)@.insert(
            word@,
            (if old(map)@.contains_key(word@) { (old(map)@[word@] + 1) as usize } else { 1 }),
        ),
{
    let current: usize = match map.get(word.as_str()) {
        Some(count) => *count,
        None => 0,
    };
    map.insert(word, current + 1);
}

} // verus!
