//! A code-breaking engine for a Mastermind-style deduction game.
//!
//! A secret code is a fixed-length sequence of distinct colors; each guess is
//! scored against it by the number of exact matches and the number of further
//! colors that occur in the code at another position. The engine enumerates
//! the candidate sequences, keeps the codes that agree with every recorded
//! score, and picks the next guess by the partition it induces.

mod counting;
mod feedback;
mod guesser;
mod history;
mod sequence;
mod space;

pub use counting::{
    code_indices, codes, factorial, falling, lemma_code_count, lemma_code_filter_count,
};
pub use feedback::{
    color_matches, evaluate, exact_matches, feasible, feedback, lemma_exact_counts_agreement,
    lemma_rank_bijective, lemma_self_evaluation, max_gauss, rank, rank_reached, triangular,
    Evaluation,
};
pub use guesser::{
    all_codes, all_sequences, bucket_size, candidates, first_best, fit, is_partition,
    largest_bucket, minimax_pick, partition_counts, worst_case, DummyGuesser, SimpleGuesser,
    Universe,
};
pub use history::{
    agrees_with, consistent, consistent_codes, consistent_set, distinct_colors, enumeration,
    history_fits, lemma_consistent_monotone, views, Entry,
};
pub use sequence::{
    all_below, is_code, is_sequence, ColorBitmask, Guess, MASK_BITS, NUM_COLORS, NUM_FIELDS,
};
pub use space::{
    code_at, lemma_enumeration_bijective, sequence_at, space_size, value, CodeIterator,
    GuessIterator,
};
