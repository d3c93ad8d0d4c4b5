use letter_boxed::LetterBoxed;
use letter_boxed::SolveError;

fn strings(words: &[&str]) -> Vec<String> {
    words.iter().map(|w| String::from(*w)).collect()
}

fn game(dict: &[&str], word: &str) -> LetterBoxed {
    LetterBoxed { dict: strings(dict), word: String::from(word), solution: Vec::new() }
}

#[test]
fn validator_rejects_outside_letters() {
    let puzzle = String::from("abcdefghijkl");
    assert!(!letter_boxed::is_valid_word(&String::from("axe"), &puzzle));
    assert!(!letter_boxed::is_valid_word(&String::from("zzz"), &puzzle));
}

#[test]
fn validator_rejects_same_side_pairs() {
    let puzzle = String::from("abcdefghijkl");
    // "ab" lies inside the side "abc".
    assert!(!letter_boxed::is_valid_word(&String::from("gab"), &puzzle));
    // A doubled letter is always a same-side pair.
    assert!(!letter_boxed::is_valid_word(&String::from("daad"), &puzzle));
    // "ac" also lies inside the side "abc".
    assert!(!letter_boxed::is_valid_word(&String::from("face"), &puzzle));
}

#[test]
fn validator_accepts_cross_side_words() {
    let puzzle = String::from("abcdefghijkl");
    assert!(letter_boxed::is_valid_word(&String::from("lake"), &puzzle));
    assert!(letter_boxed::is_valid_word(&String::from("keg"), &puzzle));
    assert!(letter_boxed::is_valid_word(&String::from("adgjbehkcfil"), &puzzle));
}

#[test]
fn forbidden_pair_word_is_in_no_bucket() {
    // Puzzle "abcdefghijkl" (sides "abc", "def", "ghi", "jkl") with the
    // dictionary ["face", "lake", "keg", "gab"]: "gab" holds "ga"
    // (cross-side, fine) and "ab" (same side "abc", forbidden), so it is
    // invalid and must be excluded from every bucket.
    let lb = game(&["face", "lake", "keg", "gab"], "abcdefghijkl");
    let m = lb.get_word_map();
    assert_eq!(m.buckets.len(), 144);
    for bucket in &m.buckets {
        assert!(!bucket.contains(&String::from("gab")));
        // "face" holds the same-side pair "ac" and is excluded too.
        assert!(!bucket.contains(&String::from("face")));
    }
}

#[test]
fn find_words_returns_exact_bucket() {
    let dict = strings(&["face", "lake", "keg", "gab"]);
    let puzzle = String::from("abcdefghijkl");
    let le = letter_boxed::find_words('l', 'e', &puzzle, &dict);
    assert_eq!(le, strings(&["lake"]));
    let kg = letter_boxed::find_words('k', 'g', &puzzle, &dict);
    assert_eq!(kg, strings(&["keg"]));
    let gb = letter_boxed::find_words('g', 'b', &puzzle, &dict);
    assert!(gb.is_empty());
}

#[test]
fn index_is_deterministic() {
    let lb = game(&["face", "lake", "keg", "gab", "adgjbehk", "kcfil"], "abcdefghijkl");
    let m1 = lb.get_word_map();
    let m2 = lb.get_word_map();
    assert_eq!(m1.letters, m2.letters);
    assert_eq!(m1.buckets, m2.buckets);
}

#[test]
fn solve_finds_two_word_cover() {
    let lb = game(&["adgjbehk", "kcfil", "lake", "keg"], "abcdefghijkl");
    let m = lb.get_word_map();
    let sol = lb.solve(&m).expect("a solution exists");
    assert_eq!(sol, strings(&["adgjbehk", "kcfil"]));
}

#[test]
fn repeated_solves_stay_valid() {
    // The search order is randomized, but every returned solution must
    // chain, stay legal and cover the 12 letters.
    let lb = game(
        &["adgjbehk", "kcfil", "ladgjbehk", "kcfi", "il", "lake"],
        "abcdefghijkl",
    );
    let m = lb.get_word_map();
    for _ in 0..10 {
        let sol = lb.solve(&m).expect("a solution exists");
        assert!(2 <= sol.len() && sol.len() <= 4);
        let mut letters: Vec<char> = Vec::new();
        for w in &sol {
            assert!(letter_boxed::is_valid_word(w, &lb.word));
            for c in w.chars() {
                if !letters.contains(&c) {
                    letters.push(c);
                }
            }
        }
        for i in 0..sol.len() - 1 {
            let last = sol[i].chars().last().unwrap();
            let first = sol[i + 1].chars().next().unwrap();
            assert_eq!(last, first);
        }
        assert_eq!(letters.len(), 12);
    }
}

#[test]
fn single_covering_word_is_no_solution() {
    // One word holding all 12 letters in a legal order is not accepted:
    // the engine looks for 2 to 4 words, never 1, and the only pairings of
    // that word with itself do not chain.
    let lb = game(&["adgjbehkcfil"], "abcdefghijkl");
    let m = lb.get_word_map();
    assert_eq!(lb.solve(&m), Err(SolveError::NoSolutionFound));
}

#[test]
fn empty_dictionary_never_solves() {
    let lb = game(&[], "abcdefghijkl");
    let m = lb.get_word_map();
    assert_eq!(lb.solve(&m), Err(SolveError::NoSolutionFound));
    let mut lb2 = game(&[], "jklabcdefghi");
    lb2.process_input();
    assert!(lb2.solution.is_empty());
}

#[test]
fn process_input_stores_solution() {
    let mut lb = game(&["adgjbehk", "kcfil"], "abcdefghijkl");
    lb.process_input();
    assert_eq!(lb.solution, strings(&["adgjbehk", "kcfil"]));
    assert_eq!(lb.word, String::from("abcdefghijkl"));
}

#[test]
fn has_solution_picks_covering_tuple() {
    let lb = game(&[], "abcdefghijkl");
    let buckets = vec![strings(&["adgjbehk"]), strings(&["kcfil"])];
    let sol = lb.has_solution(buckets).expect("the pair covers");
    assert_eq!(sol, strings(&["adgjbehk", "kcfil"]));
    let short = vec![strings(&["adgjbehk"]), strings(&["kcfi"])];
    assert_eq!(lb.has_solution(short), Err(SolveError::NoSolutionFound));
    // Of several covering tuples, the first in bucket enumeration order
    // wins: earlier buckets vary slower, the last fastest.
    let first_slow = vec![strings(&["adgjbehkc", "adgjbehk"]), strings(&["kcfil"])];
    assert_eq!(
        lb.has_solution(first_slow).unwrap(),
        strings(&["adgjbehkc", "kcfil"])
    );
    let last_fast = vec![strings(&["adgjbehk"]), strings(&["kcfil", "kcfili"])];
    assert_eq!(
        lb.has_solution(last_fast).unwrap(),
        strings(&["adgjbehk", "kcfil"])
    );
}

#[test]
fn is_solution_counts_distinct_letters() {
    let lb = game(&[], "abcdefghijkl");
    assert!(lb.is_solution(&strings(&["adgjbehk", "kcfil"])));
    assert!(!lb.is_solution(&strings(&["adgjbehk"])));
    assert!(!lb.is_solution(&strings(&[])));
}

#[test]
fn product_enumerates_all_chains() {
    // Exactly one entry per chain, in generation order: the first position
    // varies slowest, the last fastest.
    let letters = vec!['a', 'b'];
    let chains = letter_boxed::product(&letters, 2);
    assert_eq!(
        chains,
        vec![vec!['a', 'a'], vec!['a', 'b'], vec!['b', 'a'], vec!['b', 'b']]
    );
    let empty = letter_boxed::product(&letters, 0);
    assert_eq!(empty, vec![Vec::<char>::new()]);
    let twelve: Vec<char> = "abcdefghijkl".chars().collect();
    assert_eq!(letter_boxed::product(&twelve, 3).len(), 12 * 12 * 12);
}
