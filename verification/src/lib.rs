//! Verified cores of four small command-line tools: a `wc` that counts
//! lines, words, bytes and characters; a `cut` that selects fields of
//! delimited lines; a JSON validator; and a Huffman compressor.
//!
//! * [`wc`]: counting and report lines.
//! * [`cut`]: field lists and field selection.
//! * [`json_lexer`], [`json_parser`], [`json_grammar`]: tokens, the JSON
//!   grammar, validation, and JSON values as trees.
//! * [`huffman`], [`bitio`], [`huff_file`]: frequency tables, Huffman trees
//!   and codes, bit packing, and the compressed file format.
//! * [`text`]: character classes and conversions between bytes, characters
//!   and strings.
pub mod bitio;
pub mod cut;
pub mod huffman;
pub mod huff_file;
pub mod json_lexer;
pub mod json_grammar;
pub mod json_parser;
pub mod text;
pub mod wc;
