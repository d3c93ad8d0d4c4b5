//! A solver for the "Letter Boxed" word puzzle.
//!
//! A puzzle is a string of 12 letters, read as 4 sides of 3 letters each
//! (positions 0-2, 3-5, 6-8 and 9-11).  A word is legal when it uses only
//! the puzzle's letters and never places two letters of the same side next
//! to each other.  A solution is a sequence of 2 to 4 legal words in which
//! each word starts with the letter the previous one ended with, and whose
//! letters together cover all 12 puzzle letters.

mod game;
mod index;
mod search;
mod words;

pub use game::Event;
pub use game::LetterBoxed;
pub use game::SolveError;
pub use index::find_words;
pub use index::lemma_index_deterministic;
pub use index::lemma_index_excludes_invalid;
pub use index::lemma_index_places_valid_word;
pub use index::WordMap;
pub use search::chain_buckets;
pub use search::lemma_empty_dict_has_no_solution;
pub use search::lemma_solution_covers_alphabet;
pub use search::lemma_product_spec_complete;
pub use search::picked_tuple;
pub use search::picks_before;
pub use search::picks_in_suffix;
pub use search::product_spec;
pub use search::product_step;
pub use search::lemma_product_spec_len;
pub use search::lemma_product_spec_sound;
pub use search::product;
pub use words::is_valid_word;
