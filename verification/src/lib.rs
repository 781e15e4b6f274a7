//! Offline index builder for proximity-aware full-text search over verses
//! in several translations.
//!
//! Text is split into normalized tokens, statistics are accumulated in
//! ordered maps keyed by byte strings, and the maps are compiled into
//! transducers whose keys must arrive in ascending byte order.

pub mod assemble;
pub mod bytemap;
pub mod codec;
pub mod consistency;
pub mod index;
pub mod laws;
pub mod lex;
pub mod proximity;
pub mod stats;
pub mod token_order;
pub mod tokenizer;
pub mod transducer;
