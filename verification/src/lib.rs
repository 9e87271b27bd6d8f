//! Streaming front end of a tokenizer.
//!
//! Incoming bytes arrive in chunks of arbitrary size. A resumable UTF-8
//! decoder turns them into Unicode scalar values, a maximal-munch recognizer
//! turns those into tokens, and repeated text spans are deduplicated through
//! a string interner. Each stage is an explicit state machine that can be
//! suspended mid-sequence (mid-scalar or mid-token) and resumed later, so the
//! output never depends on where the chunk boundaries fall.

pub mod interner;
pub mod lexer;
pub mod pipeline;
pub mod recognizer;
pub mod token;
pub mod utf8;
