//! The game state and the solving entry points.

use crate::index::build_word_map;
use crate::index::bucket_spec;
use crate::index::index_of_letter;
use crate::index::lemma_bucket_contains;
use crate::index::WordMap;
use crate::search::chain_buckets;
use crate::search::chain_has_solution;
use crate::search::chain_of;
use crate::search::clone_strings;
use crate::search::covers_twelve;
use crate::search::extends_prefix;
use crate::search::is_full_solution;
use crate::search::lemma_solution_gives_chain;
use crate::search::new_rng;
use crate::search::picked_tuple;
use crate::search::picks_before;
use crate::search::picks_in_suffix;
use crate::search::product;
use crate::search::search_tuples;
use crate::search::shuffle_chains;
use crate::search::tuple_links_chain;
use crate::words::distinct_letter_count;
use crate::words::str_chars;
use crate::words::word_valid;
use vstd::prelude::*;

verus! {

/// Contains the state of the game.
#[derive(Debug, Default)]
pub struct LetterBoxed {
    /// The word list.
    pub dict: Vec<String>,
    /// The 12 letters of the game.
    pub word: String,
    /// A list of words that solve the game.
    pub solution: Vec<String>,
}

/// Drives the game from one step to the next.
pub enum Event {
    /// Proceed to the next step.
    Next,
}

/// The one failure a solve can end in.
#[derive(Debug, Clone, Copy, PartialEq, Eq, Structural)]
pub enum SolveError {
    /// Word counts 2 to 4, every chain and every bucket combination were
    /// exhausted without a covering word sequence.
    NoSolutionFound,
}

impl LetterBoxed {
    /// Builds the bigram index of the current puzzle over the dictionary:
    /// one bucket of legal words for each ordered pair of puzzle letters.
    pub fn get_word_map(&self) -> (m: WordMap)
        requires
            self.word@.len() == 12,
        ensures
            m.wf(self.dict.deep_view(), self.word@),
    {
        build_word_map(&self.dict, &self.word)
    }

    /// True exactly when the words of `v` hold 12 distinct letters between
    /// them, which is what a solution must cover.
    pub fn is_solution(&self, v: &Vec<String>) -> (r: bool)
        ensures
            r == covers_twelve(v.deep_view()),
    {
        let n = distinct_letter_count(v);
        n == 12
    }

    /// Searches the cartesian product of the word buckets `v`, one word per
    /// bucket, for the first pick that covers 12 letters, in bucket
    /// enumeration order: earlier buckets vary slower, the last fastest.
    pub fn has_solution(&self, v: Vec<Vec<String>>) -> (r: Result<Vec<String>, SolveError>)
        ensures
            match r {
                Ok(sol) => extends_prefix(v.deep_view(), Seq::empty(), sol.deep_view())
                    && covers_twelve(sol.deep_view()) && (exists|idx: Seq<int>|
                    #[trigger] picks_in_suffix(v.deep_view(), idx, 0) && sol.deep_view()
                        == picked_tuple(v.deep_view(), Seq::empty(), idx, 0) && (forall|
                        idx2: Seq<int>,
                    |
                        picks_in_suffix(v.deep_view(), idx2, 0) && #[trigger] picks_before(
                            idx2,
                            idx,
                            0,
                        ) ==> !covers_twelve(picked_tuple(v.deep_view(), Seq::empty(), idx2, 0)))),
                Err(e) => e == SolveError::NoSolutionFound && forall|t: Seq<Seq<char>>|
                    #[trigger] extends_prefix(v.deep_view(), Seq::empty(), t) ==> !covers_twelve(t),
            },
    {
        let mut prefix: Vec<String> = Vec::new();
        proof {
            assert(prefix.deep_view() =~= Seq::<Seq<char>>::empty());
        }
        let r = search_tuples(&v, 0, &mut prefix);
        match r {
            Some(sol) => Ok(sol),
            None => {
                proof {
                    assert forall|t: Seq<Seq<char>>|
                        #[trigger] extends_prefix(v.deep_view(), Seq::empty(), t) implies !covers_twelve(
                        t,
                    ) by {
                        assert(extends_prefix(v.deep_view(), prefix.deep_view(), t));
                    }
                }
                Err(SolveError::NoSolutionFound)
            },
        }
    }

    /// Looks up, for each link of the chain `c`, the bucket of legal words
    /// with that link's entry and exit letters, and searches the bucket
    /// combinations for the first covering word sequence, in bucket
    /// enumeration order.
    pub fn solve_combo(&self, c: &Vec<char>, m: &WordMap) -> (r: Result<Vec<String>, SolveError>)
        requires
            self.word@.len() == 12,
            m.wf(self.dict.deep_view(), self.word@),
            c@.len() >= 2,
            forall|i: int| 0 <= i < c@.len() ==> self.word@.contains(#[trigger] c@[i]),
        ensures
            match r {
                Ok(sol) => tuple_links_chain(
                    self.dict.deep_view(),
                    self.word@,
                    c@,
                    sol.deep_view(),
                ) && covers_twelve(sol.deep_view()) && (exists|idx: Seq<int>|
                    #[trigger] picks_in_suffix(
                        chain_buckets(self.dict.deep_view(), self.word@, c@),
                        idx,
                        0,
                    ) && sol.deep_view() == picked_tuple(
                        chain_buckets(self.dict.deep_view(), self.word@, c@),
                        Seq::empty(),
                        idx,
                        0,
                    ) && (forall|idx2: Seq<int>|
                        picks_in_suffix(chain_buckets(self.dict.deep_view(), self.word@, c@), idx2, 0)
                            && #[trigger] picks_before(idx2, idx, 0) ==> !covers_twelve(
                            picked_tuple(
                                chain_buckets(self.dict.deep_view(), self.word@, c@),
                                Seq::empty(),
                                idx2,
                                0,
                            ),
                        ))),
                Err(e) => e == SolveError::NoSolutionFound && !chain_has_solution(
                    self.dict.deep_view(),
                    self.word@,
                    c@,
                ),
            },
    {
        let ghost dict = self.dict.deep_view();
        let ghost puzzle = self.word@;
        let links = c.len() - 1;
        let mut out: Vec<Vec<String>> = Vec::new();
        let mut w: usize = 0;
        while w < links
            invariant
                dict == self.dict.deep_view(),
                puzzle == self.word@,
                puzzle.len() == 12,
                m.wf(dict, puzzle),
                links + 1 == c@.len(),
                c@.len() <= usize::MAX,
                forall|i: int| 0 <= i < c@.len() ==> puzzle.contains(#[trigger] c@[i]),
                0 <= w <= links,
                out@.len() == w,
                forall|j: int|
                    0 <= j < w ==> (#[trigger] out.deep_view()[j]) == bucket_spec(
                        dict,
                        puzzle,
                        c@[j],
                        c@[j + 1],
                    ),
            decreases links - w,
        {
            let first = c[w];
            let last = c[w + 1];
            let i = index_of_letter(&m.letters, first);
            let j = index_of_letter(&m.letters, last);
            let k = i * 12 + j;
            assert(k < 144 && k / 12 == i && k % 12 == j) by (nonlinear_arith)
                requires
                    0 <= i < 12,
                    0 <= j < 12,
                    k == i * 12 + j,
            ;
            let b = clone_strings(&m.buckets[k]);
            let ghost old_out = out.deep_view();
            out.push(b);
            proof {
                assert(m.buckets@[k as int].deep_view() == bucket_spec(
                    dict,
                    puzzle,
                    puzzle[k as int / 12],
                    puzzle[k as int % 12],
                ));
                assert(b.deep_view() =~~= m.buckets@[k as int].deep_view());
                assert(out.deep_view() =~~= old_out.push(b.deep_view()));
                assert(puzzle[i as int] == c@[w as int]);
                assert(puzzle[j as int] == c@[w + 1]);
            }
            w += 1;
        }
        let ghost out_deep = out.deep_view();
        assert(out_deep.len() + 1 == c@.len());
        let r = self.has_solution(out);
        match r {
            Ok(sol) => {
                proof {
                    assert(extends_prefix(out_deep, Seq::empty(), sol.deep_view()));
                    assert(tuple_links_chain(dict, puzzle, c@, sol.deep_view()));
                    assert(out_deep =~~= chain_buckets(dict, puzzle, c@));
                }
                Ok(sol)
            },
            Err(e) => {
                proof {
                    if chain_has_solution(dict, puzzle, c@) {
                        let t = choose|t: Seq<Seq<char>>|
                            tuple_links_chain(dict, puzzle, c@, t) && covers_twelve(t);
                        assert(t.take(0) =~= Seq::<Seq<char>>::empty());
                        assert(extends_prefix(out_deep, Seq::empty(), t));
                        assert(false);
                    }
                }
                Err(e)
            },
        }
    }

    /// Gets the first solution to the puzzle: word counts 2 to 4 are tried
    /// in order, and within each word count the candidate chains are
    /// shuffled, so that repeated solves can surface different solutions.
    pub fn solve(&self, m: &WordMap) -> (r: Result<Vec<String>, SolveError>)
        requires
            self.word@.len() == 12,
            m.wf(self.dict.deep_view(), self.word@),
        ensures
            match r {
                Ok(sol) => is_full_solution(self.dict.deep_view(), self.word@, sol.deep_view())
                    && (forall|s: Seq<Seq<char>>|
                    s.len() < sol.deep_view().len() ==> !is_full_solution(
                        self.dict.deep_view(),
                        self.word@,
                        s,
                    )),
                Err(e) => e == SolveError::NoSolutionFound && forall|s: Seq<Seq<char>>|
                    !is_full_solution(self.dict.deep_view(), self.word@, s),
            },
    {
        let ghost dict = self.dict.deep_view();
        let ghost puzzle = self.word@;
        let letters = str_chars(self.word.as_str());
        let mut rng = new_rng();
        let mut k: usize = 3;
        while k < 6
            invariant
                dict == self.dict.deep_view(),
                puzzle == self.word@,
                puzzle.len() == 12,
                letters@ == puzzle,
                m.wf(dict, puzzle),
                3 <= k <= 6,
                forall|s: Seq<Seq<char>>|
                    2 <= s.len() && s.len() + 1 < k ==> !is_full_solution(dict, puzzle, s),
            decreases 6 - k,
        {
            let mut combos = product(&letters, k);
            let ghost pre_shuffle = combos.deep_view();
            shuffle_chains(&mut combos, &mut rng);
            proof {
                broadcast use vstd::seq_lib::group_to_multiset_ensures;

                assert forall|s: Seq<char>| #[trigger] combos.deep_view().contains(s)
                    == pre_shuffle.contains(s) by {
                    assert(combos.deep_view().contains(s) == (combos.deep_view().to_multiset().count(
                        s,
                    ) > 0));
                    assert(pre_shuffle.contains(s) == (pre_shuffle.to_multiset().count(s) > 0));
                }
            }
            let ghost all_chains = combos.deep_view();
            assert(forall|t: int|
                0 <= t < all_chains.len() ==> (#[trigger] all_chains[t]).len() == k && (forall|
                    i: int,
                |
                    0 <= i < k ==> puzzle.contains(#[trigger] all_chains[t][i]))) by {
                assert forall|t: int| 0 <= t < all_chains.len() implies (#[trigger] all_chains[t]).len()
                    == k && (forall|i: int|
                    0 <= i < k ==> puzzle.contains(#[trigger] all_chains[t][i])) by {
                    assert(all_chains.contains(all_chains[t]));
                    assert(pre_shuffle.contains(all_chains[t]));
                    let u = choose|u: int|
                        0 <= u < pre_shuffle.len() && pre_shuffle[u] == all_chains[t];
                }
            }
            assert forall|s: Seq<char>|
                (s.len() == k && (forall|i: int|
                    0 <= i < s.len() ==> puzzle.contains(#[trigger] s[i])))
                    implies #[trigger] all_chains.contains(s) by {
                assert(pre_shuffle.contains(s));
                assert(all_chains.contains(s) == pre_shuffle.contains(s));
            }
            assert(forall|s: Seq<char>|
                (s.len() == k && (forall|i: int|
                    0 <= i < s.len() ==> puzzle.contains(#[trigger] s[i])))
                    ==> #[trigger] all_chains.contains(s));
            let total = combos.len();
            assert(all_chains.len() == total && all_chains.len() <= usize::MAX);
            let mut x: usize = 0;
            while x < combos.len()
                invariant
                    dict == self.dict.deep_view(),
                    puzzle == self.word@,
                    puzzle.len() == 12,
                    m.wf(dict, puzzle),
                    3 <= k < 6,
                    all_chains == combos.deep_view(),
                    all_chains.len() <= usize::MAX,
                    0 <= x <= all_chains.len(),
                    forall|t: int|
                        0 <= t < all_chains.len() ==> (#[trigger] all_chains[t]).len() == k && (
                        forall|i: int|
                            0 <= i < k ==> puzzle.contains(#[trigger] all_chains[t][i])),
                    forall|t: int|
                        0 <= t < x ==> !chain_has_solution(dict, puzzle, #[trigger] all_chains[t]),
                    forall|s: Seq<Seq<char>>|
                        2 <= s.len() && s.len() + 1 < k ==> !is_full_solution(dict, puzzle, s),
                decreases all_chains.len() - x,
            {
                let chain = &combos[x];
                proof {
                    assert(chain@ =~= all_chains[x as int]);
                }
                let r = self.solve_combo(chain, m);
                match r {
                    Ok(sol) => {
                        proof {
                            let sd = sol.deep_view();
                            assert(sd.len() + 1 == k);
                            assert forall|i: int| 0 <= i < sd.len() implies dict.contains(
                                #[trigger] sd[i],
                            ) && sd[i].len() >= 1 && word_valid(puzzle, sd[i]) by {
                                lemma_bucket_contains(dict, puzzle, chain@[i], chain@[i + 1], sd[i]);
                            }
                            assert forall|i: int|
                                0 <= i < sd.len() - 1 implies (#[trigger] sd[i])[sd[i].len() - 1]
                                == sd[i + 1][0] by {
                                lemma_bucket_contains(dict, puzzle, chain@[i], chain@[i + 1], sd[i]);
                                lemma_bucket_contains(
                                    dict,
                                    puzzle,
                                    chain@[i + 1],
                                    chain@[i + 2],
                                    sd[i + 1],
                                );
                            }
                            assert(is_full_solution(dict, puzzle, sd));
                            assert forall|s: Seq<Seq<char>>|
                                s.len() < sd.len() implies !is_full_solution(dict, puzzle, s) by {
                                if 2 <= s.len() {
                                    assert(s.len() + 1 < k);
                                }
                            }
                        }
                        return Ok(sol);
                    },
                    Err(_) => {},
                }
                x += 1;
            }
            proof {
                assert forall|s: Seq<Seq<char>>|
                    2 <= s.len() && s.len() + 1 < k + 1 implies !is_full_solution(
                    dict,
                    puzzle,
                    s,
                ) by {
                    if s.len() + 1 == k && is_full_solution(dict, puzzle, s) {
                        lemma_solution_gives_chain(dict, puzzle, s);
                        let c = chain_of(s);
                        assert(all_chains.contains(c));
                        let t = choose|t: int| 0 <= t < all_chains.len() && all_chains[t] == c;
                        assert(!chain_has_solution(dict, puzzle, all_chains[t]));
                        assert(false);
                    }
                }
            }
            k += 1;
        }
        proof {
            assert forall|s: Seq<Seq<char>>| !is_full_solution(dict, puzzle, s) by {
                if is_full_solution(dict, puzzle, s) {
                    assert(2 <= s.len() && s.len() + 1 < 6);
                }
            }
        }
        Err(SolveError::NoSolutionFound)
    }

    /// One full solving step: build the index of the current puzzle, run
    /// the search, and store the found solution, or an empty list when the
    /// whole search space holds none.
    pub fn process_input(&mut self)
        requires
            old(self).word@.len() == 12,
        ensures
            final(self).dict == old(self).dict,
            final(self).word == old(self).word,
            (exists|s: Seq<Seq<char>>|
                #[trigger] is_full_solution(old(self).dict.deep_view(), old(self).word@, s))
                ==> is_full_solution(
                old(self).dict.deep_view(),
                old(self).word@,
                final(self).solution.deep_view(),
            ),
            !(exists|s: Seq<Seq<char>>|
                #[trigger] is_full_solution(old(self).dict.deep_view(), old(self).word@, s))
                ==> final(self).solution@.len() == 0,
    {
        let m = self.get_word_map();
        let r = self.solve(&m);
        match r {
            Ok(sol) => {
                self.solution = sol;
            },
            Err(_) => {
                self.solution = Vec::new();
            },
        }
    }
}

} // verus!
