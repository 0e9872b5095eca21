//! Text form of tagged tree data: literal parsing and emission.
//!
//! The crate has two halves that share no state. [`parser`] recognises the
//! leaf literals of the text form (booleans, suffixed integers, floating
//! point literals and strings) at the head of a text. [`ser`] emits
//! scalars, sequences, typed arrays and compounds into a byte buffer, in
//! compact or indented layout. [`laws`] relates the two: what is written
//! is read back as it was, and the two layouts differ in line feeds and
//! spaces only.
//!
//! All contracts are stated over `Seq<u8>`, the bytes of the text in
//! UTF-8. The grammar tells apart only bytes of ASCII, so a parser never
//! cuts a character in two: [`utf8`] proves it, and the parsers rest on it
//! when they hand back the rest of the input and the content of a string
//! as text.

pub mod ascii;
pub mod decimal;
pub mod error;
pub mod parser;
pub mod ser;
pub mod laws;
pub mod utf8;
