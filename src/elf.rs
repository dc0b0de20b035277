//! Reading function symbols out of ELF files.
pub mod bytes;
pub mod error;
pub mod ident;
pub mod parser;
pub mod section;
pub mod strtab;
pub mod symbol;
