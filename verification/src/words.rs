//! Word validity: which single words may appear in a solution of a puzzle.

use vstd::prelude::*;
use vstd::std_specs::iter::IteratorSpec;

verus! {

/// The letter `c` lies on side `s` of the puzzle (sides are the four
/// consecutive groups of three letters).
pub open spec fn in_side(puzzle: Seq<char>, s: int, c: char) -> bool {
    exists|j: int| 3 * s <= j < 3 * s + 3 && puzzle[j] == c
}

/// Some single side of the puzzle holds both `a` and `b`.  Such a pair may
/// never appear as two consecutive letters of a word.
pub open spec fn same_side_pair(puzzle: Seq<char>, a: char, b: char) -> bool {
    exists|s: int| 0 <= s < 4 && in_side(puzzle, s, a) && in_side(puzzle, s, b)
}

/// A word is legal for a puzzle when every one of its letters is a puzzle
/// letter and no two consecutive letters lie on the same side.
pub open spec fn word_valid(puzzle: Seq<char>, w: Seq<char>) -> bool {
    &&& forall|i: int| 0 <= i < w.len() ==> puzzle.contains(#[trigger] w[i])
    &&& forall|i: int|
        0 <= i && i + 1 < w.len() ==> !same_side_pair(puzzle, #[trigger] w[i], w[i + 1])
}

/// The set of letters that occur anywhere in a sequence of words.
pub open spec fn letter_set(words: Seq<Seq<char>>) -> Set<char>
    decreases words.len(),
{
    if words.len() == 0 {
        Set::empty()
    } else {
        letter_set(words.drop_last()).union(words.last().to_set())
    }
}

/// A letter is in `letter_set(words)` exactly when one of the words holds it.
pub proof fn lemma_letter_set_contains(words: Seq<Seq<char>>, c: char)
    ensures
        letter_set(words).contains(c) <==> exists|i: int|
            0 <= i < words.len() && #[trigger] words[i].contains(c),
    decreases words.len(),
{
    if words.len() > 0 {
        lemma_letter_set_contains(words.drop_last(), c);
        if letter_set(words).contains(c) {
            if words.last().to_set().contains(c) {
                assert(words[words.len() - 1].contains(c));
            } else {
                let i = choose|i: int|
                    0 <= i < words.drop_last().len() && #[trigger] words.drop_last()[i].contains(c);
                assert(words[i].contains(c));
            }
        }
        if exists|i: int| 0 <= i < words.len() && #[trigger] words[i].contains(c) {
            let i = choose|i: int| 0 <= i < words.len() && #[trigger] words[i].contains(c);
            if i < words.len() - 1 {
                assert(words.drop_last()[i].contains(c));
            } else {
                assert(words.last().to_set().contains(c));
            }
        }
    }
}

/// The letter set of finitely many words is finite.
pub proof fn lemma_letter_set_finite(words: Seq<Seq<char>>)
    ensures
        letter_set(words).finite(),
    decreases words.len(),
{
    broadcast use vstd::seq_lib::seq_to_set_is_finite;

    if words.len() > 0 {
        lemma_letter_set_finite(words.drop_last());
    }
}

/// Collects the characters of a string slice into a vector.
pub fn str_chars(s: &str) -> (r: Vec<char>)
    ensures
        r@ == s@,
{
    proof {
        broadcast use vstd::string::axiom_spec_iter;

    }
    let mut r: Vec<char> = Vec::new();
    for c in it: s.chars()
        invariant
            it.seq() == s@,
            r@ == it.seq().take(it.index() as int),
    {
        r.push(c);
    }
    assert(r@ =~= s@);
    r
}

/// Whether the vector holds the character `c`.
pub(crate) fn contains_char(v: &Vec<char>, c: char) -> (r: bool)
    ensures
        r == v@.contains(c),
{
    let mut i: usize = 0;
    while i < v.len()
        invariant
            0 <= i <= v@.len(),
            forall|j: int| 0 <= j < i ==> v@[j] != c,
        decreases v@.len() - i,
    {
        if v[i] == c {
            return true;
        }
        i += 1;
    }
    false
}

/// Whether some single side of the puzzle holds both `a` and `b`.
pub(crate) fn on_same_side(p: &Vec<char>, a: char, b: char) -> (r: bool)
    requires
        p@.len() == 12,
    ensures
        r == same_side_pair(p@, a, b),
{
    let mut s: usize = 0;
    while s < 4
        invariant
            0 <= s <= 4,
            p@.len() == 12,
            forall|t: int| 0 <= t < s ==> !(in_side(p@, t, a) && in_side(p@, t, b)),
        decreases 4 - s,
    {
        let has_a = p[3 * s] == a || p[3 * s + 1] == a || p[3 * s + 2] == a;
        let has_b = p[3 * s] == b || p[3 * s + 1] == b || p[3 * s + 2] == b;
        proof {
            assert(has_a == in_side(p@, s as int, a)) by {
                if in_side(p@, s as int, a) {
                    let j = choose|j: int| 3 * s <= j < 3 * s + 3 && p@[j] == a;
                    assert(j == 3 * s || j == 3 * s + 1 || j == 3 * s + 2);
                }
            }
            assert(has_b == in_side(p@, s as int, b)) by {
                if in_side(p@, s as int, b) {
                    let j = choose|j: int| 3 * s <= j < 3 * s + 3 && p@[j] == b;
                    assert(j == 3 * s || j == 3 * s + 1 || j == 3 * s + 2);
                }
            }
        }
        if has_a && has_b {
            return true;
        }
        s += 1;
    }
    false
}

/// Counts how many distinct letters occur across all the words.
pub(crate) fn distinct_letter_count(words: &Vec<String>) -> (n: usize)
    ensures
        letter_set(words.deep_view()).finite(),
        n == letter_set(words.deep_view()).len(),
{
    proof {
        lemma_letter_set_finite(words.deep_view());
    }
    let ghost all = words.deep_view();
    let mut seen: Vec<char> = Vec::new();
    let mut wi: usize = 0;
    while wi < words.len()
        invariant
            all == words.deep_view(),
            0 <= wi <= words@.len(),
            seen@.no_duplicates(),
            seen@.to_set() == letter_set(all.take(wi as int)),
        decreases words@.len() - wi,
    {
        let w = str_chars(words[wi].as_str());
        assert(w@ == all[wi as int]);
        let mut ci: usize = 0;
        while ci < w.len()
            invariant
                all == words.deep_view(),
                0 <= wi < words@.len(),
                w@ == all[wi as int],
                0 <= ci <= w@.len(),
                seen@.no_duplicates(),
                seen@.to_set() == letter_set(all.take(wi as int)).union(w@.take(ci as int).to_set()),
            decreases w@.len() - ci,
        {
            let c = w[ci];
            let ghost old_seen = seen@;
            if !contains_char(&seen, c) {
                seen.push(c);
                proof {
                    assert(seen@.no_duplicates()) by {
                        assert(forall|j: int| 0 <= j < old_seen.len() ==> seen@[j] == old_seen[j]);
                    }
                }
            }
            proof {
                let tail = w@.take(ci as int);
                let tail1 = w@.take(ci + 1);
                assert(tail1 =~= tail.push(c));
                assert forall|x: char| #[trigger] tail1.contains(x) implies (tail.contains(x) || x
                    == c) by {
                    let j = choose|j: int| 0 <= j < tail1.len() && tail1[j] == x;
                    if j < ci {
                        assert(tail[j] == x);
                    }
                }
                assert forall|x: char| #[trigger] tail.contains(x) implies tail1.contains(x) by {
                    let j = choose|j: int| 0 <= j < tail.len() && tail[j] == x;
                    assert(tail1[j] == x);
                }
                assert(tail.push(c)[tail.len() as int] == c);
                assert(tail1.contains(c));
                assert forall|x: char| #[trigger] seen@.contains(x) implies (old_seen.contains(x)
                    || x == c) by {
                    let j = choose|j: int| 0 <= j < seen@.len() && seen@[j] == x;
                    if j < old_seen.len() {
                        assert(old_seen[j] == x);
                    }
                }
                assert forall|x: char| #[trigger] old_seen.contains(x) implies seen@.contains(x) by {
                    let j = choose|j: int| 0 <= j < old_seen.len() && old_seen[j] == x;
                    assert(seen@[j] == x);
                }
                if !old_seen.contains(c) {
                    assert(old_seen.push(c)[old_seen.len() as int] == c);
                    assert(seen@.contains(c));
                }
                broadcast use vstd::set::group_set_axioms;

                assert forall|x: char|
                    seen@.to_set().contains(x) == letter_set(all.take(wi as int)).union(
                        tail1.to_set(),
                    ).contains(x) by {
                    assert(seen@.to_set().contains(x) == seen@.contains(x));
                    assert(tail1.to_set().contains(x) == tail1.contains(x));
                    assert(tail.to_set().contains(x) == tail.contains(x));
                    assert(old_seen.to_set().contains(x) == old_seen.contains(x));
                    assert(old_seen.to_set().contains(x) == (letter_set(
                        all.take(wi as int),
                    ).contains(x) || tail.to_set().contains(x)));
                }
                assert(seen@.to_set() =~= letter_set(all.take(wi as int)).union(tail1.to_set()));
            }
            ci += 1;
        }
        proof {
            assert(w@.take(w@.len() as int) =~= w@);
            assert(all.take(wi + 1).drop_last() =~= all.take(wi as int));
            assert(all.take(wi + 1).last() == all[wi as int]);
            assert(letter_set(all.take(wi + 1)) == letter_set(all.take(wi as int)).union(
                all[wi as int].to_set(),
            ));
        }
        wi += 1;
    }
    proof {
        assert(all.take(words@.len() as int) =~= all);
        seen@.unique_seq_to_set();
    }
    seen.len()
}

/// Decides whether a word may appear in a solution of the puzzle: every
/// letter of the word is a puzzle letter, and no two consecutive letters of
/// the word lie on the same side of the puzzle.
pub fn is_valid_word(word: &String, puzzle: &String) -> (r: bool)
    requires
        puzzle@.len() == 12,
    ensures
        r == word_valid(puzzle@, word@),
{
    let w = str_chars(word.as_str());
    let p = str_chars(puzzle.as_str());
    let mut i: usize = 0;
    while i < w.len()
        invariant
            w@ == word@,
            p@ == puzzle@,
            0 <= i <= w@.len(),
            forall|j: int| 0 <= j < i ==> puzzle@.contains(#[trigger] w@[j]),
        decreases w@.len() - i,
    {
        if !contains_char(&p, w[i]) {
            return false;
        }
        i += 1;
    }
    let mut i: usize = 1;
    while i < w.len()
        invariant
            w@ == word@,
            p@ == puzzle@,
            puzzle@.len() == 12,
            1 <= i <= w@.len() + 1,
            forall|j: int|
                0 <= j < i - 1 ==> !same_side_pair(puzzle@, #[trigger] w@[j], w@[j + 1]),
        decreases w@.len() - i,
    {
        if on_same_side(&p, w[i - 1], w[i]) {
            return false;
        }
        i += 1;
    }
    true
}

} // verus!
