//! The order of tokenized words: by token, whatever the display form.

use crate::lex::{compare_bytes, lex_lt, Rank};
use crate::stats::text_key;
use crate::tokenizer::Tokenized;
use core::cmp::Ordering;
use vstd::prelude::*;
use vstd::std_specs::cmp::PartialOrdSpecImpl;

verus! {

impl PartialOrd for Tokenized {
    /// Compares the tokens as byte strings.
    fn partial_cmp(&self, other: &Self) -> (r: Option<Ordering>) {
        match compare_bytes(self.token.as_str().as_bytes(), other.token.as_str().as_bytes()) {
            Rank::Before => Some(Ordering::Less),
            Rank::Same => Some(Ordering::Equal),
            Rank::After => Some(Ordering::Greater),
        }
    }
}

impl PartialOrdSpecImpl for Tokenized {
    open spec fn obeys_partial_cmp_spec() -> bool {
        true
    }

    /// Words are ordered by the bytes of their tokens.
    open spec fn partial_cmp_spec(&self, other: &Self) -> Option<Ordering> {
        if lex_lt(text_key(self.token@), text_key(other.token@)) {
            Some(Ordering::Less)
        } else if text_key(self.token@) == text_key(other.token@) {
            Some(Ordering::Equal)
        } else {
            Some(Ordering::Greater)
        }
    }
}

} // verus!
