//! Huffman compression with a fidelity checksum, and the pulse-width protocol that
//! carries the compressed bits across a digital line.
pub mod checksum;
pub mod code_table;
pub mod forest;
pub mod frequency;
pub mod huffman_code;
pub mod pulse;
pub mod tree;
