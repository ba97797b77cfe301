//! Histories: the characters a slot has received, in order of arrival, and
//! the character that leads them.

use crate::frequency::PLACEHOLDER;
use vstd::prelude::*;

verus! {

/// How often `c` occurs in `h`.
pub open spec fn occurrences(h: Seq<char>, c: char) -> nat {
    h.to_multiset().count(c)
}

/// Index at which `c` first occurs in `h`, or `h.len()` if it never does.
pub open spec fn first_position(h: Seq<char>, c: char) -> int
    decreases h.len(),
{
    if h.len() == 0 {
        0
    } else {
        let before = first_position(h.drop_last(), c);
        if before < h.len() - 1 {
            before
        } else if h.last() == c {
            h.len() - 1
        } else {
            h.len() as int
        }
    }
}

/// `c` is the most frequent character of `h`: no character occurs more
/// often, and of those that occur as often none appeared earlier. An empty
/// history is led by the placeholder.
pub open spec fn leads(h: Seq<char>, c: char) -> bool {
    if h.len() == 0 {
        c == PLACEHOLDER
    } else {
        &&& occurrences(h, c) > 0
        &&& forall|d: char| #[trigger] occurrences(h, d) <= occurrences(h, c)
        &&& forall|d: char|
            occurrences(h, d) == occurrences(h, c) ==> first_position(h, c)
                <= #[trigger] first_position(h, d)
    }
}

/// The character that leads `h`.
pub open spec fn most_frequent(h: Seq<char>) -> char {
    choose|c: char| leads(h, c)
}

/// Appending `x` raises the count of `x` by one and leaves every other count.
pub proof fn lemma_occurrences_push(h: Seq<char>, x: char, c: char)
    ensures
        occurrences(h.push(x), c) == occurrences(h, c) + if x == c { 1nat } else { 0nat },
{
    broadcast use vstd::multiset::group_multiset_axioms;
    vstd::seq_lib::to_multiset_build(h, x);
}

/// A character occurs in `h` exactly when its count is positive.
pub proof fn lemma_occurrences_positive(h: Seq<char>, c: char)
    ensures
        occurrences(h, c) > 0 <==> h.contains(c),
{
    vstd::seq_lib::to_multiset_contains(h, c);
}

/// `first_position` is the least index that holds `c`, and `h.len()` when
/// there is none.
pub proof fn lemma_first_position(h: Seq<char>, c: char)
    ensures
        0 <= first_position(h, c) <= h.len(),
        first_position(h, c) < h.len() ==> h[first_position(h, c)] == c,
        forall|j: int| 0 <= j < first_position(h, c) && j < h.len() ==> h[j] != c,
        first_position(h, c) < h.len() <==> h.contains(c),
    decreases h.len(),
{
    if h.len() > 0 {
        let p = h.drop_last();
        lemma_first_position(p, c);
        let before = first_position(p, c);
        if before < h.len() - 1 {
            assert(h[before] == p[before]);
        }
        assert forall|j: int| 0 <= j < first_position(h, c) && j < h.len() implies h[j] != c by {
            if j < p.len() {
                assert(h[j] == p[j]);
            }
        }
        if h.contains(c) && !(first_position(h, c) < h.len()) {
            let k = choose|k: int| 0 <= k < h.len() && h[k] == c;
            assert(h[k] != c);
        }
    }
}

/// At most one character leads a history.
pub proof fn lemma_leader_unique(h: Seq<char>, c: char, d: char)
    requires
        leads(h, c),
        leads(h, d),
    ensures
        c == d,
{
    if h.len() > 0 {
        assert(occurrences(h, d) <= occurrences(h, c));
        assert(occurrences(h, c) <= occurrences(h, d));
        assert(first_position(h, c) <= first_position(h, d));
        assert(first_position(h, d) <= first_position(h, c));
        lemma_occurrences_positive(h, c);
        lemma_first_position(h, c);
        lemma_first_position(h, d);
    }
}

/// A character that leads a history is its most frequent one.
pub proof fn lemma_leader_is_most_frequent(h: Seq<char>, c: char)
    requires
        leads(h, c),
    ensures
        most_frequent(h) == c,
{
    lemma_leader_unique(h, c, most_frequent(h));
}

/// A character occurs in a history at most as often as the history is long.
pub proof fn lemma_occurrences_bounded(h: Seq<char>, c: char)
    ensures
        occurrences(h, c) <= h.len(),
    decreases h.len(),
{
    if h.len() == 0 {
        lemma_occurrences_positive(h, c);
    } else {
        lemma_occurrences_bounded(h.drop_last(), c);
        lemma_occurrences_push(h.drop_last(), h.last(), c);
        assert(h.drop_last().push(h.last()) =~= h);
    }
}

/// Counts add up over concatenation.
pub proof fn lemma_occurrences_concat(a: Seq<char>, b: Seq<char>, c: char)
    ensures
        occurrences(a + b, c) == occurrences(a, c) + occurrences(b, c),
{
    broadcast use vstd::multiset::group_multiset_axioms;
    vstd::seq_lib::lemma_multiset_commutative(a, b);
}

/// `g` is `h` with every character replaced by its image under `f`.
pub open spec fn is_image(g: Seq<char>, h: Seq<char>, f: spec_fn(char) -> char) -> bool {
    &&& g.len() == h.len()
    &&& forall|i: int| 0 <= i < h.len() ==> #[trigger] g[i] == f(h[i])
}

/// No two characters of `h` have the same image under `f`.
pub open spec fn tells_apart(h: Seq<char>, f: spec_fn(char) -> char) -> bool {
    forall|i: int, j: int|
        0 <= i < h.len() && 0 <= j < h.len() && f(#[trigger] h[i]) == f(#[trigger] h[j]) ==> h[i]
            == h[j]
}

/// Where no character of `h` shares the image of `d`, that image occurs in
/// the image of `h` as often as `d` occurs in `h`, and first at the same
/// place.
proof fn lemma_image_counts(h: Seq<char>, g: Seq<char>, f: spec_fn(char) -> char, d: char)
    requires
        is_image(g, h, f),
        forall|i: int| 0 <= i < h.len() && f(#[trigger] h[i]) == f(d) ==> h[i] == d,
    ensures
        occurrences(g, f(d)) == occurrences(h, d),
        first_position(g, f(d)) == first_position(h, d),
    decreases h.len(),
{
    if h.len() == 0 {
        lemma_occurrences_positive(h, d);
        lemma_occurrences_positive(g, f(d));
    } else {
        let h0 = h.drop_last();
        let g0 = g.drop_last();
        assert(is_image(g0, h0, f)) by {
            assert forall|i: int| 0 <= i < h0.len() implies #[trigger] g0[i] == f(h0[i]) by {
                assert(g[i] == f(h[i]));
            }
        }
        assert forall|i: int| 0 <= i < h0.len() && f(#[trigger] h0[i]) == f(d) implies h0[i]
            == d by {
            assert(h0[i] == h[i]);
        }
        lemma_image_counts(h0, g0, f, d);
        lemma_occurrences_push(h0, h.last(), d);
        lemma_occurrences_push(g0, g.last(), f(d));
        assert(h0.push(h.last()) =~= h);
        assert(g0.push(g.last()) =~= g);
        assert(g[g.len() - 1] == f(h[h.len() - 1]));
        assert((g.last() == f(d)) == (h.last() == d));
    }
}

/// Relabelling keeps the leader: where `f` tells the characters of `h`
/// apart, the image of the character that leads `h` leads the image of `h`.
pub proof fn lemma_leader_of_image(h: Seq<char>, g: Seq<char>, f: spec_fn(char) -> char, c: char)
    requires
        h.len() > 0,
        is_image(g, h, f),
        tells_apart(h, f),
        leads(h, c),
    ensures
        leads(g, f(c)),
{
    lemma_occurrences_positive(h, c);
    let at = choose|k: int| 0 <= k < h.len() && h[k] == c;
    assert forall|i: int| 0 <= i < h.len() && f(#[trigger] h[i]) == f(c) implies h[i] == c by {
        assert(f(h[i]) == f(h[at]));
    }
    lemma_image_counts(h, g, f, c);
    assert forall|e: char|
        #[trigger] occurrences(g, e) <= occurrences(g, f(c)) && (occurrences(g, e) == occurrences(
            g,
            f(c),
        ) ==> first_position(g, f(c)) <= first_position(g, e)) by {
        lemma_occurrences_positive(g, e);
        if occurrences(g, e) > 0 {
            let k = choose|k: int| 0 <= k < g.len() && g[k] == e;
            let d = h[k];
            assert(g[k] == f(h[k]));
            assert forall|i: int| 0 <= i < h.len() && f(#[trigger] h[i]) == f(d) implies h[i]
                == d by {
                assert(f(h[i]) == f(h[k]));
            }
            lemma_image_counts(h, g, f, d);
            assert(occurrences(h, d) <= occurrences(h, c));
            if occurrences(h, d) == occurrences(h, c) {
                assert(first_position(h, c) <= first_position(h, d));
            }
        }
    }
    assert forall|e: char| occurrences(g, e) == occurrences(g, f(c)) implies first_position(
        g,
        f(c),
    ) <= #[trigger] first_position(g, e) by {
        assert(occurrences(g, e) <= occurrences(g, f(c)));
    }
}

/// Counts decide the most frequent character, and order only settles ties:
/// if two histories hold the same characters equally often, the leader of
/// the first leads the second too, unless a character that occurs as often
/// appears before it there.
pub proof fn law_leader_by_counts(h1: Seq<char>, h2: Seq<char>, c: char)
    requires
        h1.to_multiset() == h2.to_multiset(),
        leads(h1, c),
        forall|d: char|
            occurrences(h1, d) == occurrences(h1, c) ==> first_position(h2, c)
                <= #[trigger] first_position(h2, d),
    ensures
        leads(h2, c),
        most_frequent(h2) == most_frequent(h1),
{
    vstd::seq_lib::to_multiset_len(h1);
    vstd::seq_lib::to_multiset_len(h2);
    assert forall|d: char| #[trigger] occurrences(h2, d) == occurrences(h1, d) by {}
    if h2.len() > 0 {
        assert forall|d: char| #[trigger] occurrences(h2, d) <= occurrences(h2, c) by {
            assert(occurrences(h1, d) <= occurrences(h1, c));
        }
    }
    lemma_leader_is_most_frequent(h1, c);
    lemma_leader_is_most_frequent(h2, c);
}

} // verus!
