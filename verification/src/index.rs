//! The bigram index: the legal words of a puzzle, bucketed by their first
//! and last letters.

use crate::words::is_valid_word;
use crate::words::str_chars;
use crate::words::word_valid;
use vstd::prelude::*;

verus! {

/// Whether `w` belongs in the bucket for entry letter `first` and exit
/// letter `last`: it starts with `first`, ends with `last`, and is a legal
/// word of the puzzle.
pub open spec fn word_fits(puzzle: Seq<char>, first: char, last: char, w: Seq<char>) -> bool {
    &&& w.len() >= 1
    &&& w[0] == first
    &&& w[w.len() - 1] == last
    &&& word_valid(puzzle, w)
}

/// The bucket for `(first, last)`: every legal word of the puzzle with that
/// entry and exit letter, in dictionary order.
pub open spec fn bucket_spec(
    dict: Seq<Seq<char>>,
    puzzle: Seq<char>,
    first: char,
    last: char,
) -> Seq<Seq<char>>
    decreases dict.len(),
{
    if dict.len() == 0 {
        Seq::empty()
    } else {
        let rest = bucket_spec(dict.drop_last(), puzzle, first, last);
        if word_fits(puzzle, first, last, dict.last()) {
            rest.push(dict.last())
        } else {
            rest
        }
    }
}

/// A word stands in a bucket exactly when the dictionary holds it and it
/// fits that bucket's entry and exit letters.
pub proof fn lemma_bucket_contains(
    dict: Seq<Seq<char>>,
    puzzle: Seq<char>,
    first: char,
    last: char,
    w: Seq<char>,
)
    ensures
        bucket_spec(dict, puzzle, first, last).contains(w) <==> (dict.contains(w) && word_fits(
            puzzle,
            first,
            last,
            w,
        )),
    decreases dict.len(),
{
    broadcast use vstd::seq_lib::lemma_seq_contains_after_push;

    if dict.len() > 0 {
        let prefix = dict.drop_last();
        lemma_bucket_contains(prefix, puzzle, first, last, w);
        let b = bucket_spec(dict, puzzle, first, last);
        let rest = bucket_spec(prefix, puzzle, first, last);
        if prefix.contains(w) {
            let i = choose|i: int| 0 <= i < prefix.len() && prefix[i] == w;
            assert(dict[i] == w);
        }
        if dict.contains(w) && word_fits(puzzle, first, last, w) && w != dict.last() {
            let i = choose|i: int| 0 <= i < dict.len() && dict[i] == w;
            assert(prefix[i] == w);
        }
        if dict.contains(w) && w == dict.last() && word_fits(puzzle, first, last, w) {
            assert(b == rest.push(w));
            assert(b.contains(w));
        }
    }
}

/// Finds, in dictionary order, every legal word of the puzzle whose first
/// letter is `first_char` and whose last letter is `last_char`.
pub fn find_words(first_char: char, last_char: char, all_letters: &String, dict: &Vec<String>) -> (r:
    Vec<String>)
    requires
        all_letters@.len() == 12,
    ensures
        r.deep_view() == bucket_spec(dict.deep_view(), all_letters@, first_char, last_char),
{
    let ghost d = dict.deep_view();
    let mut r: Vec<String> = Vec::new();
    let mut i: usize = 0;
    while i < dict.len()
        invariant
            d == dict.deep_view(),
            all_letters@.len() == 12,
            0 <= i <= d.len(),
            r.deep_view() == bucket_spec(d.take(i as int), all_letters@, first_char, last_char),
        decreases d.len() - i,
    {
        let w = &dict[i];
        let wc = str_chars(w.as_str());
        let n = wc.len();
        let fits = if n >= 1 && wc[0] == first_char && wc[n - 1] == last_char {
            is_valid_word(w, all_letters)
        } else {
            false
        };
        assert(d[i as int] == wc@);
        assert(fits == word_fits(all_letters@, first_char, last_char, d[i as int]));
        let ghost old_deep = r.deep_view();
        if fits {
            r.push(w.clone());
            assert(r.deep_view() =~= old_deep.push(d[i as int]));
        }
        proof {
            let t1 = d.take(i + 1);
            assert(t1.drop_last() =~= d.take(i as int));
            assert(t1.last() == d[i as int]);
        }
        i += 1;
    }
    proof {
        assert(d.take(d.len() as int) =~= d);
    }
    r
}

/// The index of all 144 buckets of a puzzle, one for every ordered pair of
/// puzzle letters.
pub struct WordMap {
    /// The puzzle's 12 letters, in puzzle order.
    pub letters: Vec<char>,
    /// Bucket `12 * i + j` holds the legal words that start with
    /// `letters[i]` and end with `letters[j]`.
    pub buckets: Vec<Vec<String>>,
}

impl WordMap {
    /// The index is exactly the bucketing of `dict` for `puzzle`.
    pub open spec fn wf(self, dict: Seq<Seq<char>>, puzzle: Seq<char>) -> bool {
        &&& puzzle.len() == 12
        &&& self.letters@ == puzzle
        &&& self.buckets@.len() == 144
        &&& forall|k: int|
            0 <= k < 144 ==> (#[trigger] self.buckets@[k]).deep_view() == bucket_spec(
                dict,
                puzzle,
                puzzle[k / 12],
                puzzle[k % 12],
            )
    }
}

/// Builds the whole index: one bucket for each of the 144 ordered pairs of
/// puzzle letters.
pub(crate) fn build_word_map(dict: &Vec<String>, word: &String) -> (m: WordMap)
    requires
        word@.len() == 12,
    ensures
        m.wf(dict.deep_view(), word@),
{
    let ghost d = dict.deep_view();
    let letters = str_chars(word.as_str());
    let mut buckets: Vec<Vec<String>> = Vec::new();
    let mut k: usize = 0;
    while k < 144
        invariant
            d == dict.deep_view(),
            letters@ == word@,
            word@.len() == 12,
            0 <= k <= 144,
            buckets@.len() == k,
            forall|t: int|
                0 <= t < k ==> (#[trigger] buckets@[t]).deep_view() == bucket_spec(
                    d,
                    word@,
                    word@[t / 12],
                    word@[t % 12],
                ),
        decreases 144 - k,
    {
        let i = k / 12;
        let j = k % 12;
        assert(0 <= i < 12 && 0 <= j < 12);
        let b = find_words(letters[i], letters[j], word, dict);
        buckets.push(b);
        k += 1;
    }
    WordMap { letters, buckets }
}

/// Finds the position of a puzzle letter inside the letter vector.
pub(crate) fn index_of_letter(letters: &Vec<char>, c: char) -> (i: usize)
    requires
        letters@.contains(c),
    ensures
        0 <= i < letters@.len(),
        letters@[i as int] == c,
{
    let mut i: usize = 0;
    while i < letters.len()
        invariant
            0 <= i <= letters@.len(),
            letters@.contains(c),
            forall|j: int| 0 <= j < i ==> letters@[j] != c,
        decreases letters@.len() - i,
    {
        if letters[i] == c {
            return i;
        }
        i += 1;
    }
    proof {
        let j = choose|j: int| 0 <= j < letters@.len() && letters@[j] == c;
        assert(false);
    }
    0
}

/// Every legal word of the dictionary stands in the bucket keyed by its own
/// first and last letters, and in no other bucket.
pub proof fn lemma_index_places_valid_word(dict: Seq<Seq<char>>, puzzle: Seq<char>, w: Seq<char>)
    requires
        dict.contains(w),
        w.len() >= 1,
        word_valid(puzzle, w),
    ensures
        bucket_spec(dict, puzzle, w[0], w[w.len() - 1]).contains(w),
        forall|f: char, l: char|
            !(f == w[0] && l == w[w.len() - 1]) ==> !(#[trigger] bucket_spec(
                dict,
                puzzle,
                f,
                l,
            )).contains(w),
{
    lemma_bucket_contains(dict, puzzle, w[0], w[w.len() - 1], w);
    assert forall|f: char, l: char|
        !(f == w[0] && l == w[w.len() - 1]) implies !(#[trigger] bucket_spec(
        dict,
        puzzle,
        f,
        l,
    )).contains(w) by {
        lemma_bucket_contains(dict, puzzle, f, l, w);
    }
}

/// A word that is not legal for the puzzle stands in no bucket at all.
pub proof fn lemma_index_excludes_invalid(dict: Seq<Seq<char>>, puzzle: Seq<char>, w: Seq<char>)
    requires
        w.len() == 0 || !word_valid(puzzle, w),
    ensures
        forall|f: char, l: char| !(#[trigger] bucket_spec(dict, puzzle, f, l)).contains(w),
{
    assert forall|f: char, l: char| !(#[trigger] bucket_spec(dict, puzzle, f, l)).contains(w) by {
        lemma_bucket_contains(dict, puzzle, f, l, w);
    }
}

/// Building the index is deterministic: two well-formed indexes for the
/// same dictionary and puzzle hold exactly the same buckets, in the same
/// order.
pub proof fn lemma_index_deterministic(
    m1: WordMap,
    m2: WordMap,
    dict: Seq<Seq<char>>,
    puzzle: Seq<char>,
)
    requires
        m1.wf(dict, puzzle),
        m2.wf(dict, puzzle),
    ensures
        m1.letters@ == m2.letters@,
        m1.buckets.deep_view() == m2.buckets.deep_view(),
{
    assert forall|k: int|
        0 <= k < 144 implies m1.buckets.deep_view()[k] == m2.buckets.deep_view()[k] by {
        assert(m1.buckets@[k].deep_view() == bucket_spec(dict, puzzle, puzzle[k / 12], puzzle[k
            % 12]));
        assert(m2.buckets@[k].deep_view() == bucket_spec(dict, puzzle, puzzle[k / 12], puzzle[k
            % 12]));
    }
    assert(m1.buckets.deep_view() =~= m2.buckets.deep_view());
}

} // verus!
