//! Splitting text into normalized words.
//!
//! Text is lower-cased, then cut at every character that is neither
//! alphabetic nor an apostrophe nor a period. Leading and trailing
//! apostrophes and periods are trimmed from each piece (so `E.E.C.S.`
//! becomes `e.e.c.s`), and empty pieces are dropped. Digits and hyphens are
//! separators: `good-looking` gives `good` and `looking`.
use vstd::prelude::*;
use crate::edits::views;
use crate::text::{chars_of, string_from_chars};

verus! {

broadcast use vstd::std_specs::vec::group_vec_axioms, vstd::seq::group_seq_axioms;

/// The lower-case form of a text, as `str::to_lowercase` computes it.
pub uninterp spec fn lower_of(s: Seq<char>) -> Seq<char>;

/// Whether a character has the Unicode `Alphabetic` property.
pub uninterp spec fn alphabetic(c: char) -> bool;

/// Relies on `str::to_lowercase`: the lower-case form depends on the
/// characters of `s` alone.
#[verifier::external_body]
fn lowercase(s: &str) -> (r: String)
    ensures
        r@ == lower_of(s@),
{
    s.to_lowercase()
}

/// Relies on `char::is_alphabetic`: whether `c` has the Unicode
/// `Alphabetic` property.
#[verifier::external_body]
fn is_alphabetic(c: char) -> (r: bool)
    ensures
        r == alphabetic(c),
{
    c.is_alphabetic()
}

/// Characters that belong to a word.
pub open spec fn is_word_char(c: char) -> bool {
    alphabetic(c) || c == '\'' || c == '.'
}

/// Characters trimmed from both ends of a word.
pub open spec fn is_trimmed(c: char) -> bool {
    c == '\'' || c == '.'
}

pub open spec fn trim_start(s: Seq<char>) -> Seq<char>
    decreases s.len(),
{
    if s.len() > 0 && is_trimmed(s[0]) {
        trim_start(s.drop_first())
    } else {
        s
    }
}

pub open spec fn trim_end(s: Seq<char>) -> Seq<char>
    decreases s.len(),
{
    if s.len() > 0 && is_trimmed(s.last()) {
        trim_end(s.drop_last())
    } else {
        s
    }
}

/// A piece without its leading and trailing apostrophes and periods.
pub open spec fn trim(s: Seq<char>) -> Seq<char> {
    trim_end(trim_start(s))
}

/// The pieces of `s` between separators, empty ones included: one more
/// piece than there are separators.
pub open spec fn segments(s: Seq<char>) -> Seq<Seq<char>>
    decreases s.len(),
{
    if s.len() == 0 {
        seq![Seq::empty()]
    } else if is_word_char(s.last()) {
        let p = segments(s.drop_last());
        p.update(p.len() - 1, p.last().push(s.last()))
    } else {
        segments(s.drop_last()).push(Seq::empty())
    }
}

/// The trimmed pieces that are not empty, in order.
pub open spec fn words_from(segs: Seq<Seq<char>>) -> Seq<Seq<char>>
    decreases segs.len(),
{
    if segs.len() == 0 {
        Seq::empty()
    } else if trim(segs.last()).len() > 0 {
        words_from(segs.drop_last()).push(trim(segs.last()))
    } else {
        words_from(segs.drop_last())
    }
}

/// The words of an already lower-cased text.
pub open spec fn words_of(s: Seq<char>) -> Seq<Seq<char>> {
    words_from(segments(s))
}

proof fn lemma_segments_nonempty(s: Seq<char>)
    ensures
        segments(s).len() >= 1,
    decreases s.len(),
{
    if s.len() > 0 {
        lemma_segments_nonempty(s.drop_last());
    }
}

/// `s` without its leading and trailing apostrophes and periods.
fn trimmed(s: &Vec<char>) -> (r: Vec<char>)
    ensures
        r@ == trim(s@),
{
    let n = s.len();
    let mut a: usize = 0;
    proof {
        assert(s@.skip(0) =~= s@);
    }
    while a < n && (s[a] == '\'' || s[a] == '.')
        invariant
            n == s@.len(),
            a <= n,
            trim_start(s@) == trim_start(s@.skip(a as int)),
        decreases n - a,
    {
        proof {
            assert(s@.skip(a as int).drop_first() =~= s@.skip(a + 1));
        }
        a = a + 1;
    }
    let ghost t = s@.skip(a as int);
    proof {
        if a < n {
            assert(t[0] == s@[a as int]);
        }
        assert(trim_start(t) == t);
        assert(t.take(n - a) =~= t);
    }
    let mut b: usize = n;
    while b > a && (s[b - 1] == '\'' || s[b - 1] == '.')
        invariant
            n == s@.len(),
            a <= b <= n,
            t == s@.skip(a as int),
            trim_start(s@) == t,
            trim_end(t) == trim_end(t.take(b - a)),
        decreases b,
    {
        proof {
            assert(t.take(b - a).drop_last() =~= t.take(b - a - 1));
        }
        b = b - 1;
    }
    let mut r: Vec<char> = Vec::new();
    for k in a..b
        invariant
            a <= b <= n,
            n == s@.len(),
            r@ == s@.subrange(a as int, k as int),
    {
        r.push(s[k]);
        proof {
            assert(s@.subrange(a as int, k + 1) =~= s@.subrange(a as int, k as int).push(s@[k as int]));
        }
    }
    proof {
        if b > a {
            assert(t.take(b - a).last() == s@[b - 1]);
        }
        assert(trim_end(t.take(b - a)) == t.take(b - a));
        assert(r@ =~= t.take(b - a));
    }
    r
}

/// Appends the trimmed `piece` to `words` unless it is empty.
fn push_word(words: &mut Vec<String>, piece: &Vec<char>)
    ensures
        views(final(words)@) == (if trim(piece@).len() > 0 {
            views(old(words)@).push(trim(piece@))
        } else {
            views(old(words)@)
        }),
{
    let t = trimmed(piece);
    if t.len() > 0 {
        let ghost before = words@;
        words.push(string_from_chars(t));
        proof {
            assert(views(words@) =~= views(before).push(trim(piece@)));
        }
    }
}

/// The words of `lowered`, a text already in lower case.
pub fn split_words(lowered: &str) -> (r: Vec<String>)
    ensures
        views(r@) == words_of(lowered@),
{
    let cs = chars_of(lowered);
    let mut words: Vec<String> = Vec::new();
    let mut piece: Vec<char> = Vec::new();
    proof {
        assert(cs@.take(0) =~= Seq::<char>::empty());
        assert(views(words@) =~= Seq::<Seq<char>>::empty());
        assert(segments(cs@.take(0)).drop_last() =~= Seq::<Seq<char>>::empty());
    }
    for i in 0..cs.len()
        invariant
            views(words@) == words_from(segments(cs@.take(i as int)).drop_last()),
            piece@ == segments(cs@.take(i as int)).last(),
    {
        let c = cs[i];
        let ghost p = segments(cs@.take(i as int));
        proof {
            lemma_segments_nonempty(cs@.take(i as int));
            assert(cs@.take(i + 1).drop_last() =~= cs@.take(i as int));
            assert(cs@.take(i + 1).last() == c);
        }
        if is_alphabetic(c) || c == '\'' || c == '.' {
            piece.push(c);
            proof {
                assert(segments(cs@.take(i + 1)).drop_last() =~= p.drop_last());
            }
        } else {
            push_word(&mut words, &piece);
            piece = Vec::new();
            proof {
                assert(segments(cs@.take(i + 1)).drop_last() =~= p);
                assert(p.drop_last().push(p.last()) =~= p);
                assert(piece@ =~= segments(cs@.take(i + 1)).last());
            }
        }
    }
    proof {
        let p = segments(cs@.take(cs@.len() as int));
        lemma_segments_nonempty(cs@.take(cs@.len() as int));
        assert(cs@.take(cs@.len() as int) =~= cs@);
        assert(p.drop_last().push(p.last()) =~= p);
    }
    push_word(&mut words, &piece);
    words
}

/// The words of `text`: lower-cased, cut at separators, trimmed, and
/// without empty pieces.
pub fn tokenize(text: &str) -> (r: Vec<String>)
    ensures
        views(r@) == words_of(lower_of(text@)),
{
    let lowered = lowercase(text);
    split_words(lowered.as_str())
}

} // verus!
