//! A small reversible text cipher over a fixed symbol table.
//!
//! Text is encoded against a table of characters, mixed block by block with
//! an invertible permutation, and combined with a keystream derived from a
//! four-symbol key and an initialization value. All arithmetic is modular,
//! with the table's size as modulus.

pub mod block;
pub mod cipher;
pub mod encoding;
pub mod error;
pub mod key;
pub mod roundtrip;
pub mod text;
