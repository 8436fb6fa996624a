//! Splits a stream of characters into delimiter-separated tokens and parses
//! each token into a value of the caller's choosing.
//!
//! The stream is a finite queue of events, each either a decoded character or
//! an error of the underlying source. `token` holds the mathematical model of
//! tokenization and the laws it obeys; `scan` holds the scanner and the
//! one-event-at-a-time `Tokenizer` it runs on, both proved to follow that
//! model.

mod scan;
mod token;

pub use scan::{
    agrees, is_white, lift_parse, parse_outcome, parsed_outcome, token_view, white, Scan, ScanError,
    Scanner, Tokenizer,
};
pub use token::{
    char_of, is_sep, is_word_char, lemma_decided, lemma_delimiter_run_replaced,
    lemma_delimiter_runs_collapse, lemma_exhausted_stays_exhausted, lemma_only_delimiters,
    lemma_outcome_shape, lemma_still_running, lemma_token_then_token, lemma_trailing_token_flushed,
    next_outcome, outcomes, running, skip_seps, word_at, word_end,
};
