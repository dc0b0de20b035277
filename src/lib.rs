//! A compact address-to-name symbol table for firmware images: a dictionary
//! of recurring substrings is learned from the symbol names, each name is
//! rewritten as one-byte token ids, everything is packed into one blob, and a
//! decoder that needs no allocation looks addresses up in that blob.
pub mod char_counter;
pub mod coverage;
pub mod decoder;
pub mod dictionary;
pub mod elf;
pub mod huffman;
pub mod laws;
pub mod layout;
pub mod matcher;
pub mod pack;
pub mod posix;
pub mod selector;
pub mod tokenizable;
pub mod tools;
mod text;

pub use char_counter::CharCounter;
pub use decoder::KAllSyms;
pub use dictionary::{make_dic, make_dic_exact};
pub use huffman::huffman;
pub use matcher::{kmp_search, kmp_search_all};
pub use pack::pack;
pub use selector::{guess_best_token, strictly_find_best_token};
