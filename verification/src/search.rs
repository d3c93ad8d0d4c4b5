//! The chain search: candidate letter chains, and the cartesian search over
//! per-link word buckets for a covering word sequence.

use crate::index::bucket_spec;
use crate::index::lemma_bucket_contains;
use crate::words::distinct_letter_count;
use crate::words::lemma_letter_set_contains;
use crate::words::lemma_letter_set_finite;
use crate::words::letter_set;
use crate::words::word_valid;
use rand::seq::SliceRandom;
use vstd::prelude::*;

verus! {

/// A sequence of words covers the puzzle when 12 distinct letters occur in
/// it (only puzzle letters ever enter a solution, and a puzzle has 12).
pub open spec fn covers_twelve(words: Seq<Seq<char>>) -> bool {
    letter_set(words).len() == 12
}

/// The boundary letters of a word sequence: the first word's first letter,
/// then each word's last letter in turn.
pub open spec fn chain_of(words: Seq<Seq<char>>) -> Seq<char> {
    Seq::new(
        words.len() + 1,
        |i: int|
            if i == 0 {
                words[0][0]
            } else {
                words[i - 1].last()
            },
    )
}

/// `t` picks one word from each link of the chain `c`: word `i` comes from
/// the bucket keyed by the chain letters `i` and `i + 1`.
pub open spec fn tuple_links_chain(
    dict: Seq<Seq<char>>,
    puzzle: Seq<char>,
    c: Seq<char>,
    t: Seq<Seq<char>>,
) -> bool {
    &&& t.len() + 1 == c.len()
    &&& forall|i: int|
        0 <= i < t.len() ==> bucket_spec(dict, puzzle, c[i], c[i + 1]).contains(#[trigger] t[i])
}

/// The buckets that a chain walks through: bucket `j` pairs the chain
/// letters `j` and `j + 1`.
pub open spec fn chain_buckets(dict: Seq<Seq<char>>, puzzle: Seq<char>, c: Seq<char>) -> Seq<
    Seq<Seq<char>>,
> {
    Seq::new((c.len() - 1) as nat, |j: int| bucket_spec(dict, puzzle, c[j], c[j + 1]))
}

/// Some choice of one word per link of the chain covers the puzzle.
pub open spec fn chain_has_solution(dict: Seq<Seq<char>>, puzzle: Seq<char>, c: Seq<char>) -> bool {
    exists|t: Seq<Seq<char>>| tuple_links_chain(dict, puzzle, c, t) && covers_twelve(t)
}

/// A full solution of the puzzle: 2 to 4 dictionary words, each legal,
/// chaining end to end, whose letters cover the whole puzzle.
pub open spec fn is_full_solution(
    dict: Seq<Seq<char>>,
    puzzle: Seq<char>,
    sol: Seq<Seq<char>>,
) -> bool {
    &&& 2 <= sol.len() <= 4
    &&& forall|i: int| 0 <= i < sol.len() ==> dict.contains(#[trigger] sol[i])
    &&& forall|i: int|
        0 <= i < sol.len() ==> (#[trigger] sol[i]).len() >= 1 && word_valid(puzzle, sol[i])
    &&& forall|i: int|
        0 <= i < sol.len() - 1 ==> (#[trigger] sol[i])[sol[i].len() - 1] == sol[i + 1][0]
    &&& covers_twelve(sol)
}

/// With an empty dictionary no full solution exists at all.
pub proof fn lemma_empty_dict_has_no_solution(
    dict: Seq<Seq<char>>,
    puzzle: Seq<char>,
    sol: Seq<Seq<char>>,
)
    requires
        dict.len() == 0,
    ensures
        !is_full_solution(dict, puzzle, sol),
{
    if is_full_solution(dict, puzzle, sol) {
        assert(dict.contains(sol[0]));
        let i = choose|i: int| 0 <= i < dict.len() && dict[i] == sol[0];
        assert(false);
    }
}

/// The letters of a full solution are exactly the puzzle's alphabet: no
/// letter outside the puzzle, and none of the puzzle's letters missing.
pub proof fn lemma_solution_covers_alphabet(
    dict: Seq<Seq<char>>,
    puzzle: Seq<char>,
    sol: Seq<Seq<char>>,
)
    requires
        puzzle.len() == 12,
        is_full_solution(dict, puzzle, sol),
    ensures
        letter_set(sol) == puzzle.to_set(),
{
    broadcast use vstd::seq_lib::seq_to_set_is_finite;

    lemma_letter_set_finite(sol);
    assert forall|c: char| letter_set(sol).contains(c) implies puzzle.to_set().contains(c) by {
        lemma_letter_set_contains(sol, c);
        let i = choose|i: int| 0 <= i < sol.len() && #[trigger] sol[i].contains(c);
        assert(word_valid(puzzle, sol[i]));
        let j = choose|j: int| 0 <= j < sol[i].len() && sol[i][j] == c;
        assert(puzzle.contains(sol[i][j]));
    }
    assert(letter_set(sol).subset_of(puzzle.to_set()));
    puzzle.lemma_cardinality_of_set();
    vstd::set_lib::lemma_len_subset(letter_set(sol), puzzle.to_set());
    vstd::set_lib::lemma_subset_equality(letter_set(sol), puzzle.to_set());
    assert(letter_set(sol) =~= puzzle.to_set());
}

/// Every full solution is reachable through its own boundary chain: the
/// chain's letters are puzzle letters and the solution links that chain.
pub proof fn lemma_solution_gives_chain(dict: Seq<Seq<char>>, puzzle: Seq<char>, sol: Seq<Seq<char>>)
    requires
        is_full_solution(dict, puzzle, sol),
    ensures
        chain_of(sol).len() == sol.len() + 1,
        forall|i: int| 0 <= i < chain_of(sol).len() ==> puzzle.contains(#[trigger] chain_of(sol)[i]),
        tuple_links_chain(dict, puzzle, chain_of(sol), sol),
        chain_has_solution(dict, puzzle, chain_of(sol)),
{
    let c = chain_of(sol);
    assert forall|i: int| 0 <= i < c.len() implies puzzle.contains(#[trigger] c[i]) by {
        if i == 0 {
            assert(sol[0].len() >= 1 && word_valid(puzzle, sol[0]));
            assert(puzzle.contains(sol[0][0]));
        } else {
            assert(sol[i - 1].len() >= 1 && word_valid(puzzle, sol[i - 1]));
            assert(puzzle.contains(sol[i - 1][sol[i - 1].len() - 1]));
        }
    }
    assert forall|i: int|
        0 <= i < sol.len() implies bucket_spec(dict, puzzle, c[i], c[i + 1]).contains(
        #[trigger] sol[i],
    ) by {
        assert(sol[i].len() >= 1 && word_valid(puzzle, sol[i]));
        if i > 0 {
            assert(sol[i - 1][sol[i - 1].len() - 1] == sol[i][0]);
        }
        assert(sol[i][0] == c[i]);
        assert(sol[i][sol[i].len() - 1] == c[i + 1]);
        lemma_bucket_contains(dict, puzzle, c[i], c[i + 1], sol[i]);
    }
    assert(tuple_links_chain(dict, puzzle, c, sol) && covers_twelve(sol));
}

/// Copies a vector of characters element by element.
pub(crate) fn clone_chars(v: &Vec<char>) -> (r: Vec<char>)
    ensures
        r@ == v@,
{
    let mut r: Vec<char> = Vec::new();
    let mut i: usize = 0;
    while i < v.len()
        invariant
            0 <= i <= v@.len(),
            r@ == v@.take(i as int),
        decreases v@.len() - i,
    {
        r.push(v[i]);
        assert(r@ =~= v@.take(i + 1));
        i += 1;
    }
    assert(v@.take(v@.len() as int) =~= v@);
    r
}

/// Copies a vector of words element by element.
pub(crate) fn clone_strings(v: &Vec<String>) -> (r: Vec<String>)
    ensures
        r@ == v@,
{
    let mut r: Vec<String> = Vec::new();
    let mut i: usize = 0;
    while i < v.len()
        invariant
            0 <= i <= v@.len(),
            r@ == v@.take(i as int),
        decreases v@.len() - i,
    {
        r.push(v[i].clone());
        assert(r@ =~= v@.take(i + 1));
        i += 1;
    }
    assert(v@.take(v@.len() as int) =~= v@);
    r
}

/// One expansion step of the product: every chain of `prev` followed by
/// every letter of `letters`, the letter varying fastest.
pub open spec fn product_step(prev: Seq<Seq<char>>, letters: Seq<char>) -> Seq<Seq<char>> {
    Seq::new(
        prev.len() * letters.len(),
        |k: int| prev[k / letters.len() as int].push(letters[k % letters.len() as int]),
    )
}

/// The full cartesian product of `letters` with itself `n` times, in
/// generation order: exactly one chain for every way of drawing `n` letters
/// with repetition, the first position varying slowest, the last fastest.
pub open spec fn product_spec(letters: Seq<char>, n: nat) -> Seq<Seq<char>>
    decreases n,
{
    if n == 0 {
        seq![Seq::<char>::empty()]
    } else {
        product_step(product_spec(letters, (n - 1) as nat), letters)
    }
}

/// The product of `n` positions over `letters` holds exactly
/// `letters.len()` to the power `n` chains.
pub proof fn lemma_product_spec_len(letters: Seq<char>, n: nat)
    ensures
        product_spec(letters, n).len() == vstd::arithmetic::power::pow(letters.len() as int, n),
    decreases n,
{
    reveal(vstd::arithmetic::power::pow);
    let l = letters.len() as int;
    if n > 0 {
        lemma_product_spec_len(letters, (n - 1) as nat);
        let m = product_spec(letters, (n - 1) as nat).len() as int;
        assert(product_spec(letters, n).len() == m * l);
        assert(vstd::arithmetic::power::pow(l, n) == l * vstd::arithmetic::power::pow(
            l,
            (n - 1) as nat,
        ));
        vstd::arithmetic::mul::lemma_mul_is_commutative(m, l);
    } else {
        assert(product_spec(letters, n).len() == 1);
        assert(vstd::arithmetic::power::pow(l, 0) == 1);
    }
}

/// Every chain of the product has `n` letters, each drawn from `letters`.
pub proof fn lemma_product_spec_sound(letters: Seq<char>, n: nat, k: int)
    requires
        0 <= k < product_spec(letters, n).len(),
    ensures
        product_spec(letters, n)[k].len() == n,
        forall|i: int| 0 <= i < n ==> letters.contains(#[trigger] product_spec(letters, n)[k][i]),
    decreases n,
{
    if n > 0 {
        let prev = product_spec(letters, (n - 1) as nat);
        let l = letters.len() as int;
        assert(1 <= l && 0 <= k / l < prev.len() && 0 <= k % l < l) by (nonlinear_arith)
            requires
                0 <= k,
                k < prev.len() * l,
                0 <= prev.len(),
                0 <= l,
        ;
        lemma_product_spec_sound(letters, (n - 1) as nat, k / l);
        let entry = product_spec(letters, n)[k];
        assert(entry == prev[k / l].push(letters[k % l]));
        assert(letters.contains(letters[k % l]));
        assert forall|i: int| 0 <= i < n implies letters.contains(#[trigger] entry[i]) by {
            if i < n - 1 {
                assert(entry[i] == prev[k / l][i]);
            } else {
                assert(entry[i] == letters[k % l]);
            }
        }
    }
}

/// Every way of drawing `n` letters from `letters` occurs in the product.
pub proof fn lemma_product_spec_complete(letters: Seq<char>, n: nat, s: Seq<char>)
    requires
        s.len() == n,
        forall|i: int| 0 <= i < s.len() ==> letters.contains(#[trigger] s[i]),
    ensures
        product_spec(letters, n).contains(s),
    decreases n,
{
    if n == 0 {
        assert(s =~= Seq::<char>::empty());
        assert(product_spec(letters, n)[0] == Seq::<char>::empty());
    } else {
        let prev = product_spec(letters, (n - 1) as nat);
        let l = letters.len() as int;
        let front = s.drop_last();
        assert forall|i: int| 0 <= i < front.len() implies letters.contains(#[trigger] front[i]) by {
            assert(front[i] == s[i]);
        }
        lemma_product_spec_complete(letters, (n - 1) as nat, front);
        let k0 = choose|k0: int| 0 <= k0 < prev.len() && prev[k0] == front;
        assert(letters.contains(s[s.len() - 1]));
        let j0 = choose|j0: int| 0 <= j0 < letters.len() && letters[j0] == s[s.len() - 1];
        let k = k0 * l + j0;
        assert(0 <= k < prev.len() * l && k / l == k0 && k % l == j0) by (nonlinear_arith)
            requires
                0 <= k0 < prev.len(),
                0 <= j0 < l,
                k == k0 * l + j0,
        ;
        assert(product_spec(letters, n)[k] == prev[k0].push(letters[j0]));
        assert(s =~= prev[k0].push(letters[j0]));
        assert(product_spec(letters, n)[k] == s);
    }
}

/// Every chain of `n` letters drawn, with repetition, from `letters`: the
/// full cartesian product of the letter list with itself, `n` times, with
/// exactly one entry per chain, in generation order (`product_spec`).
pub fn product(letters: &Vec<char>, n: usize) -> (r: Vec<Vec<char>>)
    ensures
        r.deep_view() == product_spec(letters@, n as nat),
        r.deep_view().len() == vstd::arithmetic::power::pow(letters@.len() as int, n as nat),
        forall|k: int|
            0 <= k < r.deep_view().len() ==> (#[trigger] r.deep_view()[k]).len() == n && (forall|
                i: int,
            |
                0 <= i < n ==> letters@.contains(#[trigger] r.deep_view()[k][i])),
        forall|s: Seq<char>|
            (s.len() == n && (forall|i: int| 0 <= i < s.len() ==> letters@.contains(#[trigger] s[i])))
                ==> #[trigger] r.deep_view().contains(s),
{
    let mut result: Vec<Vec<char>> = Vec::new();
    result.push(Vec::new());
    proof {
        assert(result.deep_view() =~~= product_spec(letters@, 0));
    }
    let mut step: usize = 0;
    while step < n
        invariant
            0 <= step <= n,
            result.deep_view() == product_spec(letters@, step as nat),
        decreases n - step,
    {
        let ghost prev = result.deep_view();
        let ghost l = letters@.len() as int;
        let ghost target = product_step(prev, letters@);
        let mut next: Vec<Vec<char>> = Vec::new();
        proof {
            assert(next.deep_view() =~~= target.take(0));
        }
        let mut a: usize = 0;
        while a < result.len()
            invariant
                prev == result.deep_view(),
                l == letters@.len(),
                target == product_step(prev, letters@),
                0 <= a <= prev.len(),
                next.deep_view() == target.take(a as int * l),
            decreases result@.len() - a,
        {
            let base = clone_chars(&result[a]);
            proof {
                assert(base@ =~= prev[a as int]);
            }
            let mut b: usize = 0;
            while b < letters.len()
                invariant
                    prev == result.deep_view(),
                    l == letters@.len(),
                    target == product_step(prev, letters@),
                    0 <= a < prev.len(),
                    0 <= b <= l,
                    base@ == prev[a as int],
                    next.deep_view() == target.take(a as int * l + b),
                decreases letters@.len() - b,
            {
                let mut v1 = clone_chars(&base);
                v1.push(letters[b]);
                let ghost old_next = next.deep_view();
                let ghost entry = v1@;
                next.push(v1);
                proof {
                    let k = a as int * l + b;
                    assert(0 <= k && k < prev.len() * l && k / l == a as int && k % l == b as int)
                        by (nonlinear_arith)
                        requires
                            0 <= a < prev.len(),
                            0 <= b < l,
                            k == a as int * l + b,
                    ;
                    assert(target[k] == prev[a as int].push(letters@[b as int]));
                    assert(entry == prev[a as int].push(letters@[b as int]));
                    assert(next.deep_view() =~~= old_next.push(entry));
                    assert(target.take(k + 1) =~= target.take(k).push(target[k]));
                    assert(next.deep_view() =~~= target.take(k + 1));
                }
                b += 1;
            }
            proof {
                assert(a as int * l + l == (a as int + 1) * l) by (nonlinear_arith);
            }
            a += 1;
        }
        proof {
            assert(prev.len() * l == target.len());
            assert(next.deep_view() =~~= target);
        }
        result = next;
        proof {
            assert(result.deep_view() == product_spec(letters@, (step + 1) as nat));
        }
        step += 1;
    }
    proof {
        lemma_product_spec_len(letters@, n as nat);
        assert forall|k: int|
            0 <= k < result.deep_view().len() implies (#[trigger] result.deep_view()[k]).len() == n
            && (forall|i: int|
            0 <= i < n ==> letters@.contains(#[trigger] result.deep_view()[k][i])) by {
            lemma_product_spec_sound(letters@, n as nat, k);
        }
        assert forall|s: Seq<char>|
            (s.len() == n && (forall|i: int| 0 <= i < s.len() ==> letters@.contains(#[trigger] s[i])))
                implies #[trigger] result.deep_view().contains(s) by {
            lemma_product_spec_complete(letters@, n as nat, s);
        }
    }
    result
}

/// Relies on rand::thread_rng: a handle to the thread-local random number
/// generator, used only to drive the shuffle below.
#[verifier::external_body]
pub(crate) fn new_rng() -> rand::rngs::ThreadRng {
    rand::thread_rng()
}

#[verifier::external_type_specification]
#[verifier::external_body]
pub struct ExThreadRng(rand::rngs::ThreadRng);

/// Relies on rand::seq::SliceRandom::shuffle: a Fisher-Yates shuffle that
/// only swaps elements of the slice in place, so afterwards the vector holds
/// exactly the same chains with the same multiplicities, in some order.
#[verifier::external_body]
pub(crate) fn shuffle_chains(v: &mut Vec<Vec<char>>, rng: &mut rand::rngs::ThreadRng)
    ensures
        final(v).deep_view().to_multiset() == old(v).deep_view().to_multiset(),
{
    v.shuffle(rng)
}

/// One position per bucket from `from` on: `idx[j]` is a valid index into
/// bucket `j`.
pub open spec fn picks_in_suffix(buckets: Seq<Seq<Seq<char>>>, idx: Seq<int>, from: int) -> bool {
    &&& idx.len() == buckets.len()
    &&& forall|j: int| from <= j < buckets.len() ==> 0 <= #[trigger] idx[j] < buckets[j].len()
}

/// The tuple that keeps `pre` before `from` and picks word `idx[j]` from
/// bucket `j` from `from` on.
pub open spec fn picked_tuple(
    buckets: Seq<Seq<Seq<char>>>,
    pre: Seq<Seq<char>>,
    idx: Seq<int>,
    from: int,
) -> Seq<Seq<char>> {
    Seq::new(
        buckets.len(),
        |j: int|
            if j < from {
                pre[j]
            } else {
                buckets[j][idx[j]]
            },
    )
}

/// `a` comes before `b` in bucket enumeration order on the positions from
/// `from` on: the two agree up to some position, where `a` picks an earlier
/// word of that bucket.  Earlier buckets vary slower, the last fastest.
pub open spec fn picks_before(a: Seq<int>, b: Seq<int>, from: int) -> bool {
    exists|p: int|
        #![trigger a[p], b[p]]
        from <= p < a.len() && a.len() == b.len() && (forall|q: int|
            from <= q < p ==> a[q] == b[q]) && a[p] < b[p]
}

/// `t` is a tuple over the buckets that agrees with `pre` on the first
/// `pre.len()` words and picks each later word from its own bucket.
pub open spec fn extends_prefix(
    buckets: Seq<Seq<Seq<char>>>,
    pre: Seq<Seq<char>>,
    t: Seq<Seq<char>>,
) -> bool {
    &&& t.len() == buckets.len()
    &&& t.take(pre.len() as int) == pre
    &&& forall|j: int| pre.len() <= j < t.len() ==> buckets[j].contains(#[trigger] t[j])
}

/// Depth-first search over the per-link buckets `v`, from position `i` on,
/// with the words already picked in `prefix`.  Returns the first covering
/// tuple that extends the prefix, in bucket enumeration order (earlier
/// buckets vary slower), or `None` when no extension covers.
pub(crate) fn search_tuples(v: &Vec<Vec<String>>, i: usize, prefix: &mut Vec<String>) -> (r: Option<
    Vec<String>,
>)
    requires
        i <= v@.len(),
        old(prefix)@.len() == i,
    ensures
        final(prefix)@ == old(prefix)@,
        match r {
            Some(sol) => extends_prefix(v.deep_view(), old(prefix).deep_view(), sol.deep_view())
                && covers_twelve(sol.deep_view()) && (exists|idx: Seq<int>|
                #[trigger] picks_in_suffix(v.deep_view(), idx, i as int) && sol.deep_view()
                    == picked_tuple(v.deep_view(), old(prefix).deep_view(), idx, i as int) && (
                forall|idx2: Seq<int>|
                    picks_in_suffix(v.deep_view(), idx2, i as int) && #[trigger] picks_before(
                        idx2,
                        idx,
                        i as int,
                    ) ==> !covers_twelve(
                        picked_tuple(v.deep_view(), old(prefix).deep_view(), idx2, i as int),
                    ))),
            None => forall|t: Seq<Seq<char>>|
                #[trigger] extends_prefix(v.deep_view(), old(prefix).deep_view(), t)
                    ==> !covers_twelve(t),
        },
    decreases v@.len() - i,
{
    let ghost pre = prefix.deep_view();
    if i == v.len() {
        let n = distinct_letter_count(prefix);
        if n == 12 {
            let sol = clone_strings(prefix);
            proof {
                assert(sol.deep_view() == prefix.deep_view());
                assert(sol.deep_view().take(pre.len() as int) =~= pre);
                let bdeep = v.deep_view();
                let widx = Seq::<int>::new(bdeep.len(), |j: int| 0);
                assert(picks_in_suffix(bdeep, widx, i as int));
                assert(picked_tuple(bdeep, pre, widx, i as int) =~= sol.deep_view());
                assert forall|idx2: Seq<int>|
                    picks_in_suffix(bdeep, idx2, i as int) && #[trigger] picks_before(
                        idx2,
                        widx,
                        i as int,
                    ) implies !covers_twelve(picked_tuple(bdeep, pre, idx2, i as int)) by {
                    let p = choose|p: int|
                        #![trigger idx2[p], widx[p]]
                        i <= p < idx2.len() && idx2.len() == widx.len() && (forall|q: int|
                            i <= q < p ==> idx2[q] == widx[q]) && idx2[p] < widx[p];
                    assert(idx2.len() == bdeep.len());
                    assert(false);
                }
            }
            return Some(sol);
        } else {
            proof {
                assert forall|t: Seq<Seq<char>>|
                    #[trigger] extends_prefix(v.deep_view(), pre, t) implies !covers_twelve(t) by {
                    assert(t =~= pre);
                }
            }
            return None;
        }
    }
    let m = v[i].len();
    let ghost bucket = v.deep_view()[i as int];
    let mut b: usize = 0;
    while b < m
        invariant
            i < v@.len(),
            v@.len() <= usize::MAX,
            m == bucket.len(),
            bucket == v.deep_view()[i as int],
            pre == prefix.deep_view(),
            prefix@ == old(prefix)@,
            prefix@.len() == i,
            0 <= b <= m,
            forall|t: Seq<Seq<char>>|
                (#[trigger] extends_prefix(v.deep_view(), pre, t) && (exists|x: int|
                    0 <= x < b && bucket[x] == t[i as int])) ==> !covers_twelve(t),
        decreases m - b,
    {
        let ghost old_pre = prefix.deep_view();
        prefix.push(v[i][b].clone());
        proof {
            assert(prefix.deep_view() =~~= pre.push(bucket[b as int]));
        }
        let r = search_tuples(v, i + 1, prefix);
        proof {
            assert(prefix.deep_view() =~~= pre.push(bucket[b as int]));
        }
        match r {
            Some(sol) => {
                prefix.pop();
                proof {
                    assert(prefix@ =~= old(prefix)@.push(v@[i as int]@[b as int]).drop_last());
                    assert(prefix@ =~= old(prefix)@);
                    let pushed = pre.push(bucket[b as int]);
                    assert(extends_prefix(v.deep_view(), pushed, sol.deep_view()));
                    assert(sol.deep_view().take(i + 1) == pushed);
                    assert forall|j: int| 0 <= j < i implies sol.deep_view().take(i as int)[j]
                        == pre[j] by {
                        assert(sol.deep_view().take(i + 1)[j] == pushed[j]);
                    }
                    assert(sol.deep_view().take(i as int) =~= pre);
                    assert(sol.deep_view()[i as int] == pushed[i as int]);
                    assert(bucket.contains(sol.deep_view()[i as int])) by {
                        assert(bucket[b as int] == sol.deep_view()[i as int]);
                    }
                    assert(extends_prefix(v.deep_view(), pre, sol.deep_view()));
                    let bdeep = v.deep_view();
                    let idx_rec = choose|idx: Seq<int>|
                        #[trigger] picks_in_suffix(bdeep, idx, i + 1) && sol.deep_view()
                            == picked_tuple(bdeep, pushed, idx, i + 1) && (forall|idx2: Seq<int>|
                            picks_in_suffix(bdeep, idx2, i + 1) && #[trigger] picks_before(
                                idx2,
                                idx,
                                i + 1,
                            ) ==> !covers_twelve(picked_tuple(bdeep, pushed, idx2, i + 1)));
                    let widx = idx_rec.update(i as int, b as int);
                    assert(picks_in_suffix(bdeep, widx, i as int)) by {
                        assert forall|j: int|
                            i <= j < bdeep.len() implies 0 <= #[trigger] widx[j] < bdeep[j].len() by {
                            if j != i {
                                assert(widx[j] == idx_rec[j]);
                            }
                        }
                    }
                    assert(picked_tuple(bdeep, pre, widx, i as int) =~= picked_tuple(
                        bdeep,
                        pushed,
                        idx_rec,
                        i + 1,
                    ));
                    assert(sol.deep_view() == picked_tuple(bdeep, pre, widx, i as int));
                    assert forall|idx2: Seq<int>|
                        picks_in_suffix(bdeep, idx2, i as int) && #[trigger] picks_before(
                            idx2,
                            widx,
                            i as int,
                        ) implies !covers_twelve(picked_tuple(bdeep, pre, idx2, i as int)) by {
                        let p = choose|p: int|
                            #![trigger idx2[p], widx[p]]
                            i <= p < idx2.len() && idx2.len() == widx.len() && (forall|q: int|
                                i <= q < p ==> idx2[q] == widx[q]) && idx2[p] < widx[p];
                        let t2 = picked_tuple(bdeep, pre, idx2, i as int);
                        if p == i {
                            assert(t2[i as int] == bucket[idx2[i as int]]);
                            assert(extends_prefix(bdeep, pre, t2)) by {
                                assert(t2.take(i as int) =~= pre);
                                assert forall|j: int|
                                    i <= j < t2.len() implies bdeep[j].contains(
                                    #[trigger] t2[j],
                                ) by {
                                    assert(t2[j] == bdeep[j][idx2[j]]);
                                }
                            }
                            assert(idx2[i as int] < b);
                            assert(exists|x: int| 0 <= x < b && bucket[x] == t2[i as int]) by {
                                assert(bucket[idx2[i as int]] == t2[i as int]);
                            }
                        } else {
                            assert(idx2[i as int] == widx[i as int]);
                            assert(t2 =~= picked_tuple(bdeep, pushed, idx2, i + 1));
                            assert(picks_in_suffix(bdeep, idx2, i + 1));
                            assert(picks_before(idx2, idx_rec, i + 1)) by {
                                assert(idx2[p] < idx_rec[p] && (forall|q: int|
                                    i + 1 <= q < p ==> idx2[q] == idx_rec[q]));
                            }
                            assert(!covers_twelve(picked_tuple(bdeep, pushed, idx2, i + 1)));
                        }
                    }
                }
                return Some(sol);
            },
            None => {
                prefix.pop();
                proof {
                    assert(prefix@ =~= old(prefix)@.push(v@[i as int]@[b as int]).drop_last());
                    assert(prefix@ =~= old(prefix)@);
                    assert(prefix.deep_view() =~~= pre);
                    let pushed = pre.push(bucket[b as int]);
                    assert forall|t: Seq<Seq<char>>|
                        (#[trigger] extends_prefix(v.deep_view(), pre, t) && (exists|x: int|
                            0 <= x < b + 1 && bucket[x] == t[i as int])) implies !covers_twelve(
                        t,
                    ) by {
                        let x = choose|x: int| 0 <= x < b + 1 && bucket[x] == t[i as int];
                        if x < b {
                            assert(exists|x2: int| 0 <= x2 < b && bucket[x2] == t[i as int]);
                        } else {
                            assert(t[i as int] == bucket[b as int]);
                            assert(t.take(i + 1) =~= pushed) by {
                                assert forall|j: int| 0 <= j < i + 1 implies t.take(i + 1)[j]
                                    == pushed[j] by {
                                    if j < i {
                                        assert(t.take(i as int)[j] == pre[j]);
                                    }
                                }
                            }
                            assert(extends_prefix(v.deep_view(), pushed, t));
                        }
                    }
                }
            },
        }
        b += 1;
    }
    proof {
        assert forall|t: Seq<Seq<char>>|
            #[trigger] extends_prefix(v.deep_view(), pre, t) implies !covers_twelve(t) by {
            assert(bucket.contains(t[i as int]));
            let x = choose|x: int| 0 <= x < bucket.len() && bucket[x] == t[i as int];
            assert(exists|x2: int| 0 <= x2 < b && bucket[x2] == t[i as int]);
        }
    }
    None
}

} // verus!
