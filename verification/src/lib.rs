//! A streaming word-frequency counter: chunks of a byte stream are folded to
//! lowercase, split into whitespace-delimited tokens, tallied in a hash
//! table, and reported one word per line in descending-count order.
pub mod laws;
pub mod model;
pub mod output;
pub mod table;
pub mod tokenize;
