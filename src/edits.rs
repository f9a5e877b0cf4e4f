//! A brute-force corrector: it enumerates every word one or two edits away
//! from a misspelled word and keeps those that a table of known words holds.
//!
//! An edit deletes a character, swaps two adjacent characters, replaces a
//! character by a lower-case ASCII letter, or inserts such a letter.
use vstd::prelude::*;
use crate::count_table::CountTable;
use crate::text::{chars_of, string_from_chars};

verus! {

broadcast use vstd::std_specs::vec::group_vec_axioms, vstd::seq::group_seq_axioms;

/// The letters that replacements and insertions use, in order.
pub open spec fn alphabet() -> Seq<char> {
    seq![
        'a', 'b', 'c', 'd', 'e', 'f', 'g', 'h', 'i', 'j', 'k', 'l', 'm',
        'n', 'o', 'p', 'q', 'r', 's', 't', 'u', 'v', 'w', 'x', 'y', 'z',
    ]
}

/// The views of a sequence of strings.
pub open spec fn views(v: Seq<String>) -> Seq<Seq<char>> {
    v.map_values(|s: String| s@)
}

/// The concatenation of a sequence of sequences.
pub open spec fn flat(s: Seq<Seq<Seq<char>>>) -> Seq<Seq<char>>
    decreases s.len(),
{
    if s.len() == 0 {
        Seq::empty()
    } else {
        flat(s.drop_last()) + s.last()
    }
}

/// `w` with the characters in `[i, j)` replaced by `mid`.
pub open spec fn splice(w: Seq<char>, i: int, mid: Seq<char>, j: int) -> Seq<char> {
    w.take(i) + mid + w.skip(j)
}

/// Every deletion, by position.
pub open spec fn deletes(w: Seq<char>) -> Seq<Seq<char>> {
    Seq::new(w.len(), |i: int| splice(w, i, seq![], i + 1))
}

/// Every swap of adjacent characters, by position.
pub open spec fn transposes(w: Seq<char>) -> Seq<Seq<char>> {
    Seq::new(
        (if w.len() > 0 { w.len() - 1 } else { 0 }) as nat,
        |i: int| splice(w, i, seq![w[i + 1], w[i]], i + 2),
    )
}

/// `w` with the characters in `[i, j)` replaced by each letter in turn.
pub open spec fn letter_edits(w: Seq<char>, i: int, j: int) -> Seq<Seq<char>> {
    Seq::new(26, |c: int| splice(w, i, seq![alphabet()[c]], j))
}

/// Every replacement, by position then letter.
pub open spec fn replaces(w: Seq<char>) -> Seq<Seq<char>> {
    flat(Seq::new(w.len(), |i: int| letter_edits(w, i, i + 1)))
}

/// Every insertion, by position then letter.
pub open spec fn inserts(w: Seq<char>) -> Seq<Seq<char>> {
    flat(Seq::new(w.len() + 1, |i: int| letter_edits(w, i, i)))
}

/// Every single edit of `w`, repetitions included: deletions, then swaps,
/// then replacements, then insertions.
pub open spec fn single_edits(w: Seq<char>) -> Seq<Seq<char>> {
    deletes(w) + transposes(w) + replaces(w) + inserts(w)
}

/// `s` without repetitions, each element kept where it first occurs.
pub open spec fn dedup(s: Seq<Seq<char>>) -> Seq<Seq<char>>
    decreases s.len(),
{
    if s.len() == 0 {
        Seq::empty()
    } else if dedup(s.drop_last()).contains(s.last()) {
        dedup(s.drop_last())
    } else {
        dedup(s.drop_last()).push(s.last())
    }
}

/// The distinct words one edit away from `w`, in order of first occurrence.
pub open spec fn edits1_of(w: Seq<char>) -> Seq<Seq<char>> {
    dedup(single_edits(w))
}

/// The words one edit away from each of `ws`, in order.
pub open spec fn edits2_of(ws: Seq<Seq<char>>) -> Seq<Seq<char>> {
    flat(ws.map_values(|e: Seq<char>| edits1_of(e)))
}

/// The words of `ws` that `m` holds, each with its count, in order.
pub open spec fn known_of(ws: Seq<Seq<char>>, m: Map<Seq<char>, usize>) -> Seq<(Seq<char>, usize)>
    decreases ws.len(),
{
    if ws.len() == 0 {
        Seq::empty()
    } else if m.contains_key(ws.last()) {
        known_of(ws.drop_last(), m).push((ws.last(), m[ws.last()]))
    } else {
        known_of(ws.drop_last(), m)
    }
}

/// The views of a sequence of word-count pairs.
pub open spec fn pair_views(v: Seq<(String, usize)>) -> Seq<(Seq<char>, usize)> {
    v.map_values(|p: (String, usize)| (p.0@, p.1))
}

/// The first pair with the highest positive count, or `("-", 0)` when no
/// count is positive.
pub open spec fn pick(s: Seq<(Seq<char>, usize)>) -> (Seq<char>, usize)
    decreases s.len(),
{
    if s.len() == 0 {
        ("-"@, 0)
    } else if s.last().1 > pick(s.drop_last()).1 {
        s.last()
    } else {
        pick(s.drop_last())
    }
}

/// The known words one edit away from `w`, or, when there are none, those
/// two edits away.
pub open spec fn candidates_of(w: Seq<char>, m: Map<Seq<char>, usize>) -> Seq<(Seq<char>, usize)> {
    if known_of(edits1_of(w), m).len() > 0 {
        known_of(edits1_of(w), m)
    } else {
        known_of(edits2_of(edits1_of(w)), m)
    }
}

/// The correction of `w`: the most frequent candidate, the first among
/// equally frequent ones, or `"-"` when there is none.
pub open spec fn correct_of(w: Seq<char>, m: Map<Seq<char>, usize>) -> Seq<char> {
    pick(candidates_of(w, m)).0
}

proof fn lemma_flat_step(s: Seq<Seq<Seq<char>>>, i: int)
    requires
        0 <= i < s.len(),
    ensures
        flat(s.take(i + 1)) == flat(s.take(i)) + s[i],
{
    assert(s.take(i + 1).drop_last() =~= s.take(i));
}

/// The string of `w` with the characters in `[i, j)` replaced by `mid`.
fn spliced(w: &Vec<char>, i: usize, mid: Vec<char>, j: usize) -> (r: String)
    requires
        i <= j <= w@.len(),
    ensures
        r@ == splice(w@, i as int, mid@, j as int),
{
    let mut cs: Vec<char> = Vec::new();
    for k in 0..i
        invariant
            i <= w@.len(),
            cs@ == w@.take(k as int),
    {
        cs.push(w[k]);
        proof {
            assert(w@.take(k + 1) =~= w@.take(k as int).push(w@[k as int]));
        }
    }
    for k in 0..mid.len()
        invariant
            cs@ == w@.take(i as int) + mid@.take(k as int),
    {
        cs.push(mid[k]);
        proof {
            assert(mid@.take(k + 1) =~= mid@.take(k as int).push(mid@[k as int]));
        }
    }
    for k in j..w.len()
        invariant
            j <= w@.len(),
            cs@ == w@.take(i as int) + mid@ + w@.subrange(j as int, k as int),
    {
        cs.push(w[k]);
        proof {
            assert(w@.subrange(j as int, k + 1) =~= w@.subrange(j as int, k as int).push(w@[k as int]));
        }
    }
    proof {
        assert(mid@.take(mid@.len() as int) =~= mid@);
        assert(w@.subrange(j as int, w@.len() as int) =~= w@.skip(j as int));
    }
    string_from_chars(cs)
}

/// Appends `s` to `v` unless `v` already holds an equal string.
fn push_new(v: &mut Vec<String>, s: String)
    ensures
        views(final(v)@) == (if views(old(v)@).contains(s@) { views(old(v)@) } else { views(old(v)@).push(s@) }),
{
    let mut k: usize = 0;
    while k < v.len()
        invariant
            k <= v@.len(),
            forall|j: int| 0 <= j < k ==> v@[j]@ != s@,
        decreases v@.len() - k,
    {
        if v[k] == s {
            proof {
                assert(views(v@)[k as int] == s@);
            }
            return;
        }
        k = k + 1;
    }
    proof {
        assert(!views(v@).contains(s@)) by {
            if views(v@).contains(s@) {
                let j = choose|j: int| 0 <= j < views(v@).len() && views(v@)[j] == s@;
                assert(v@[j]@ == s@);
            }
        }
    }
    let ghost before = v@;
    v.push(s);
    proof {
        assert(views(v@) =~= views(before).push(s@));
    }
}

proof fn lemma_dedup_push(s: Seq<Seq<char>>, x: Seq<char>)
    ensures
        dedup(s.push(x)) == (if dedup(s).contains(x) { dedup(s) } else { dedup(s).push(x) }),
{
    assert(s.push(x).drop_last() =~= s);
}

/// The letters that replacements and insertions use.
fn letters() -> (r: Vec<char>)
    ensures
        r@ == alphabet(),
{
    let r: Vec<char> = vec![
        'a', 'b', 'c', 'd', 'e', 'f', 'g', 'h', 'i', 'j', 'k', 'l', 'm',
        'n', 'o', 'p', 'q', 'r', 's', 't', 'u', 'v', 'w', 'x', 'y', 'z',
    ];
    proof {
        assert(r@ =~= alphabet());
    }
    r
}

/// Adds to `v`, letter by letter, `w` with the characters in `[i, j)`
/// replaced by that letter, skipping the strings that `v` already holds.
fn push_letter_edits(
    v: &mut Vec<String>,
    w: &Vec<char>,
    i: usize,
    j: usize,
    Ghost(pushed): Ghost<Seq<Seq<char>>>,
)
    requires
        i <= j <= w@.len(),
        views(old(v)@) == dedup(pushed),
    ensures
        views(final(v)@) == dedup(pushed + letter_edits(w@, i as int, j as int)),
{
    let alpha = letters();
    let ghost block = letter_edits(w@, i as int, j as int);
    for c in 0..26usize
        invariant
            i <= j <= w@.len(),
            alpha@ == alphabet(),
            block == letter_edits(w@, i as int, j as int),
            views(v@) == dedup(pushed + block.take(c as int)),
    {
        let mut mid: Vec<char> = Vec::new();
        mid.push(alpha[c]);
        let cand = spliced(w, i, mid, j);
        proof {
            assert(mid@ =~= seq![alphabet()[c as int]]);
            assert(cand@ == block[c as int]);
            assert(pushed + block.take(c + 1) =~= (pushed + block.take(c as int)).push(cand@));
            lemma_dedup_push(pushed + block.take(c as int), cand@);
        }
        push_new(v, cand);
    }
    proof {
        assert(block.take(26) =~= block);
    }
}

/// Every distinct word one edit away from `word`, in order of first
/// occurrence among the deletions, swaps, replacements and insertions.
pub fn edits1(word: &str) -> (r: Vec<String>)
    ensures
        views(r@) == edits1_of(word@),
{
    let w = chars_of(word);
    let n = w.len();
    let ghost ww = w@;
    let mut v: Vec<String> = Vec::new();
    let ghost mut pushed: Seq<Seq<char>> = Seq::empty();
    proof {
        assert(views(v@) =~= dedup(pushed));
    }
    // Deletions.
    for i in 0..n
        invariant
            w@ == ww,
            n == ww.len(),
            views(v@) == dedup(pushed),
            pushed == deletes(ww).take(i as int),
    {
        let cand = spliced(&w, i, Vec::new(), i + 1);
        proof {
            lemma_dedup_push(pushed, cand@);
            pushed = pushed.push(cand@);
            assert(pushed =~= deletes(ww).take(i + 1));
        }
        push_new(&mut v, cand);
    }
    proof {
        assert(deletes(ww).take(n as int) =~= deletes(ww));
    }
    // Swaps of adjacent characters.
    let mut i: usize = 0;
    while i < n && i + 1 < n
        invariant
            w@ == ww,
            n == ww.len(),
            i <= n,
            n > 0 ==> i <= n - 1,
            views(v@) == dedup(pushed),
            pushed == deletes(ww) + transposes(ww).take(i as int),
        decreases n - i,
    {
        let mut mid: Vec<char> = Vec::new();
        mid.push(w[i + 1]);
        mid.push(w[i]);
        let cand = spliced(&w, i, mid, i + 2);
        proof {
            assert(mid@ =~= seq![ww[i + 1], ww[i as int]]);
            lemma_dedup_push(pushed, cand@);
            pushed = pushed.push(cand@);
            assert(pushed =~= deletes(ww) + transposes(ww).take(i + 1));
        }
        push_new(&mut v, cand);
        i = i + 1;
    }
    proof {
        assert(transposes(ww).take(i as int) =~= transposes(ww));
    }
    // Replacements.
    let ghost rblocks = Seq::new(n as nat, |k: int| letter_edits(ww, k, k + 1));
    let ghost base = pushed;
    for i in 0..n
        invariant
            w@ == ww,
            n == ww.len(),
            rblocks == Seq::new(n as nat, |k: int| letter_edits(ww, k, k + 1)),
            views(v@) == dedup(pushed),
            pushed == base + flat(rblocks.take(i as int)),
    {
        push_letter_edits(&mut v, &w, i, i + 1, Ghost(pushed));
        proof {
            lemma_flat_step(rblocks, i as int);
            pushed = pushed + rblocks[i as int];
            assert(pushed =~= base + flat(rblocks.take(i + 1)));
        }
    }
    proof {
        assert(rblocks.take(n as int) =~= rblocks);
    }
    // Insertions, before each position and at the end.
    let ghost iblocks = Seq::new((n + 1) as nat, |k: int| letter_edits(ww, k, k));
    let ghost base2 = pushed;
    let mut i: usize = 0;
    loop
        invariant_except_break
            i <= n,
            views(v@) == dedup(pushed),
            pushed == base2 + flat(iblocks.take(i as int)),
        invariant
            w@ == ww,
            n == ww.len(),
            iblocks == Seq::new((n + 1) as nat, |k: int| letter_edits(ww, k, k)),
        ensures
            views(v@) == dedup(base2 + flat(iblocks)),
        decreases n - i,
    {
        push_letter_edits(&mut v, &w, i, i, Ghost(pushed));
        proof {
            lemma_flat_step(iblocks, i as int);
            pushed = pushed + iblocks[i as int];
            assert(pushed =~= base2 + flat(iblocks.take(i + 1)));
        }
        if i == n {
            proof {
                assert(iblocks.take(i + 1) =~= iblocks);
            }
            break;
        }
        i = i + 1;
    }
    proof {
        assert(base2 + flat(iblocks) =~= single_edits(ww));
    }
    v
}

/// The words one edit away from each of `e1s`, in order, repetitions
/// included.
pub fn edits2(e1s: &Vec<String>) -> (r: Vec<String>)
    ensures
        views(r@) == edits2_of(views(e1s@)),
{
    let ghost blocks = views(e1s@).map_values(|e: Seq<char>| edits1_of(e));
    let mut v: Vec<String> = Vec::new();
    for k in 0..e1s.len()
        invariant
            blocks == views(e1s@).map_values(|e: Seq<char>| edits1_of(e)),
            views(v@) == flat(blocks.take(k as int)),
    {
        let mut es = edits1(e1s[k].as_str());
        let ghost before = v@;
        proof {
            lemma_flat_step(blocks, k as int);
            assert(views(e1s@)[k as int] == e1s@[k as int]@);
        }
        v.append(&mut es);
        proof {
            assert(views(v@) =~= views(before) + blocks[k as int]);
        }
    }
    proof {
        assert(blocks.take(e1s@.len() as int) =~= blocks);
    }
    v
}

/// The words of `words` that `word_library` holds, each with its count, in
/// order.
pub fn known(words: &Vec<String>, word_library: &CountTable) -> (r: Vec<(String, usize)>)
    ensures
        pair_views(r@) == known_of(views(words@), word_library@),
{
    let ghost ws = views(words@);
    let mut v: Vec<(String, usize)> = Vec::new();
    for k in 0..words.len()
        invariant
            ws == views(words@),
            pair_views(v@) == known_of(ws.take(k as int), word_library@),
    {
        let ghost before = v@;
        proof {
            assert(ws.take(k + 1).drop_last() =~= ws.take(k as int));
            assert(ws.take(k + 1).last() == words@[k as int]@);
        }
        match word_library.get(words[k].as_str()) {
            Some(freq) => {
                v.push((words[k].clone(), *freq));
                proof {
                    assert(pair_views(v@) =~= pair_views(before).push((ws[k as int], *freq)));
                }
            },
            None => {},
        }
    }
    proof {
        assert(ws.take(words@.len() as int) =~= ws);
    }
    v
}

/// The best correction of `word`: among the known words one edit away, or
/// two edits away when none is one edit away, the most frequent, the first
/// in enumeration order among equally frequent ones; `"-"` when no known
/// word is within two edits.
pub fn correct(word: &str, word_library: &CountTable) -> (r: String)
    ensures
        r@ == correct_of(word@, word_library@),
{
    let e1s = edits1(word);
    let mut candidates = known(&e1s, word_library);
    if candidates.len() == 0 {
        candidates = known(&edits2(&e1s), word_library);
    }
    let ghost cs = pair_views(candidates@);
    let mut best_word: String = "-".to_owned();
    let mut best_word_score: usize = 0;
    for k in 0..candidates.len()
        invariant
            cs == pair_views(candidates@),
            (best_word@, best_word_score) == pick(cs.take(k as int)),
    {
        proof {
            assert(cs.take(k + 1).drop_last() =~= cs.take(k as int));
        }
        if candidates[k].1 > best_word_score {
            best_word = candidates[k].0.clone();
            best_word_score = candidates[k].1;
        }
    }
    proof {
        assert(cs.take(candidates@.len() as int) =~= cs);
    }
    best_word
}

} // verus!
