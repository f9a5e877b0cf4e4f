//! Edit (Levenshtein) distance between tokens.
//!
//! A token is read as its sequence of Unicode scalar values (`char`s): one
//! insertion, deletion or substitution acts on one `char`, so a multi-byte
//! character counts as a single symbol.
use vstd::prelude::*;
use crate::text::chars_of;

verus! {

pub open spec fn min3(x: nat, y: nat, z: nat) -> nat {
    if x <= y && x <= z {
        x
    } else if y <= z {
        y
    } else {
        z
    }
}

/// The cost of matching the last symbols of two non-empty sequences.
pub open spec fn subst_cost(a: Seq<char>, b: Seq<char>) -> nat {
    if a.last() == b.last() {
        0
    } else {
        1
    }
}

/// The minimum number of single-symbol insertions, deletions and
/// substitutions that turn `a` into `b`, written as the classic recurrence
/// on prefixes.
pub open spec fn edit_distance(a: Seq<char>, b: Seq<char>) -> nat
    decreases a.len() + b.len(),
{
    if a.len() == 0 {
        b.len()
    } else if b.len() == 0 {
        a.len()
    } else {
        min3(
            edit_distance(a.drop_last(), b) + 1,
            edit_distance(a, b.drop_last()) + 1,
            edit_distance(a.drop_last(), b.drop_last()) + subst_cost(a, b),
        )
    }
}

/// The distance never exceeds the length of the longer sequence.
pub proof fn lemma_distance_le_max(a: Seq<char>, b: Seq<char>)
    ensures
        edit_distance(a, b) <= a.len() || edit_distance(a, b) <= b.len(),
        edit_distance(a, b) <= (if a.len() >= b.len() { a.len() } else { b.len() }),
    decreases a.len() + b.len(),
{
    if a.len() > 0 && b.len() > 0 {
        lemma_distance_le_max(a.drop_last(), b.drop_last());
    }
}

/// Every token is at distance zero from itself.
pub proof fn lemma_distance_identity(a: Seq<char>)
    ensures
        edit_distance(a, a) == 0,
    decreases a.len(),
{
    if a.len() > 0 {
        lemma_distance_identity(a.drop_last());
    }
}

/// Distinct tokens are at a positive distance.
pub proof fn lemma_distance_zero_iff_equal(a: Seq<char>, b: Seq<char>)
    ensures
        edit_distance(a, b) == 0 <==> a == b,
    decreases a.len() + b.len(),
{
    lemma_distance_identity(a);
    if a.len() == 0 && b.len() == 0 {
        assert(a =~= b);
    }
    if a.len() > 0 && b.len() > 0 {
        lemma_distance_zero_iff_equal(a.drop_last(), b.drop_last());
        if edit_distance(a, b) == 0 {
            assert(a.drop_last() == b.drop_last() && a.last() == b.last());
            assert(a =~= a.drop_last().push(a.last()));
            assert(b =~= b.drop_last().push(b.last()));
        }
    }
}

/// The distance does not depend on the order of its arguments.
pub proof fn lemma_distance_symmetric(a: Seq<char>, b: Seq<char>)
    ensures
        edit_distance(a, b) == edit_distance(b, a),
    decreases a.len() + b.len(),
{
    if a.len() > 0 && b.len() > 0 {
        lemma_distance_symmetric(a.drop_last(), b);
        lemma_distance_symmetric(a, b.drop_last());
        lemma_distance_symmetric(a.drop_last(), b.drop_last());
    }
}

/// The distance is at least the difference of the lengths.
proof fn lemma_distance_ge_len_diff(a: Seq<char>, b: Seq<char>)
    ensures
        edit_distance(a, b) + b.len() >= a.len(),
        edit_distance(a, b) + a.len() >= b.len(),
    decreases a.len() + b.len(),
{
    if a.len() > 0 && b.len() > 0 {
        lemma_distance_ge_len_diff(a.drop_last(), b);
        lemma_distance_ge_len_diff(a, b.drop_last());
        lemma_distance_ge_len_diff(a.drop_last(), b.drop_last());
    }
}

/// Appending one symbol to either side moves the distance by at most one.
proof fn lemma_distance_push_le(a: Seq<char>, b: Seq<char>, x: char)
    ensures
        edit_distance(a.push(x), b) <= edit_distance(a, b) + 1,
        edit_distance(a, b.push(x)) <= edit_distance(a, b) + 1,
{
    assert(a.push(x).drop_last() =~= a);
    assert(b.push(x).drop_last() =~= b);
    if b.len() == 0 {
        lemma_distance_ge_len_diff(a, b.push(x));
    }
    if a.len() == 0 {
        lemma_distance_ge_len_diff(a.push(x), b);
    }
}

/// The triangle inequality: going through `b` is never shorter than going
/// straight from `a` to `c`.
pub proof fn lemma_distance_triangle(a: Seq<char>, b: Seq<char>, c: Seq<char>)
    ensures
        edit_distance(a, c) <= edit_distance(a, b) + edit_distance(b, c),
    decreases a.len() + b.len() + c.len(),
{
    if c.len() == 0 {
        lemma_distance_ge_len_diff(a, b);
    } else if a.len() == 0 {
        lemma_distance_ge_len_diff(b, c);
    } else if b.len() == 0 {
        lemma_distance_le_max(a, c);
    } else {
        let a1 = a.drop_last();
        let b1 = b.drop_last();
        let c1 = c.drop_last();
        assert(a =~= a1.push(a.last()));
        assert(b =~= b1.push(b.last()));
        assert(c =~= c1.push(c.last()));
        let ab = edit_distance(a, b);
        let bc = edit_distance(b, c);
        if ab == edit_distance(a1, b) + 1 {
            // a's last symbol is deleted on the way to b.
            lemma_distance_triangle(a1, b, c);
        } else if bc == edit_distance(b, c1) + 1 {
            // c's last symbol is inserted on the way from b.
            lemma_distance_triangle(a, b, c1);
        } else if ab == edit_distance(a, b1) + 1 {
            lemma_distance_triangle(a, b1, c);
            if bc == edit_distance(b1, c) + 1 {
            } else {
                lemma_distance_push_le(b1, c1, c.last());
            }
        } else {
            if bc == edit_distance(b1, c) + 1 {
                lemma_distance_triangle(a, b1, c);
                lemma_distance_push_le(a1, b1, a.last());
            } else {
                lemma_distance_triangle(a1, b1, c1);
            }
        }
    }
}

/// The distance of a prefix pair, unfolded one step: what the table of the
/// dynamic program relies on.
proof fn lemma_prefix_step(a: Seq<char>, b: Seq<char>, i: int, j: int)
    requires
        1 <= i <= a.len(),
        1 <= j <= b.len(),
    ensures
        edit_distance(a.take(i), b.take(j)) == min3(
            edit_distance(a.take(i - 1), b.take(j)) + 1,
            edit_distance(a.take(i), b.take(j - 1)) + 1,
            edit_distance(a.take(i - 1), b.take(j - 1)) + (if a[i - 1] == b[j - 1] {
                0nat
            } else {
                1nat
            }),
        ),
{
    assert(a.take(i).drop_last() =~= a.take(i - 1));
    assert(b.take(j).drop_last() =~= b.take(j - 1));
}

/// Edit distance between `w1` and `w2`, counted in `char`s.
pub fn levenshtein_distance(w1: &str, w2: &str) -> (r: usize)
    ensures
        r == edit_distance(w1@, w2@),
{
    let a = chars_of(w1);
    let b = chars_of(w2);
    let n = a.len();
    let m = b.len();
    if n == 0 {
        return m;
    }
    if m == 0 {
        return n;
    }
    // prev[j] is the distance between the first i - 1 symbols of a and the
    // first j symbols of b; cur is the row for i being filled.
    let mut prev: Vec<usize> = Vec::new();
    prev.push(0);
    for j in 0..m
        invariant
            m == b@.len(),
            prev@.len() == j + 1,
            forall|k: int| 0 <= k <= j ==> prev@[k] == k,
    {
        prev.push(j + 1);
    }
    proof {
        assert forall|k: int| 0 <= k <= m implies prev@[k] == edit_distance(a@.take(0), b@.take(k)) by {
            assert(a@.take(0).len() == 0);
        }
    }
    for r in 0..n
        invariant
            n == a@.len(),
            m == b@.len(),
            1 <= m,
            prev@.len() == m + 1,
            forall|k: int| 0 <= k <= m ==> prev@[k] == edit_distance(a@.take(r as int), b@.take(k)),
    {
        let mut cur: Vec<usize> = Vec::new();
        cur.push(r + 1);
        proof {
            assert(b@.take(0).len() == 0);
            assert(a@.take(r + 1).len() == r + 1);
        }
        for c in 0..m
            invariant
                n == a@.len(),
                m == b@.len(),
                r < n,
                prev@.len() == m + 1,
                forall|k: int| 0 <= k <= m ==> prev@[k] == edit_distance(a@.take(r as int), b@.take(k)),
                cur@.len() == c + 1,
                forall|k: int| 0 <= k <= c ==> cur@[k] == edit_distance(a@.take(r + 1), b@.take(k)),
        {
            proof {
                lemma_prefix_step(a@, b@, r + 1, c + 1);
                lemma_distance_le_max(a@.take(r as int), b@.take(c as int));
            }
            let cost: usize = if a[r] == b[c] { 0 } else { 1 };
            let diag = prev[c] + cost;
            let side = if prev[c + 1] < cur[c] { prev[c + 1] } else { cur[c] };
            let d = if side < diag { side + 1 } else { diag };
            cur.push(d);
        }
        prev = cur;
    }
    proof {
        assert(a@.take(n as int) =~= a@);
        assert(b@.take(m as int) =~= b@);
    }
    prev[m]
}

} // verus!
