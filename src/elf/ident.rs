//! The identification bytes at the start of an ELF file.
use vstd::prelude::*;
use crate::elf::error::{invalid, ElfParserError};
use crate::posix::Errno;

verus! {

#[derive(Copy, Clone, PartialEq, Eq, Debug, Structural)]
pub enum ElfClass {
    Elf32,
    Elf64,
}

#[derive(Copy, Clone, PartialEq, Eq, Debug, Structural)]
pub enum ElfEndian {
    ElfLE,
    ElfBE,
}

pub const ELF_IDENT_SIZE: usize = 16;

/// `data` starts with the ELF magic number.
pub open spec fn has_magic(data: Seq<u8>) -> bool {
    data[0] == 0x7f && data[1] == 0x45 && data[2] == 0x4c && data[3] == 0x46
}

/// `data` starts with identification bytes that `parse_ident` accepts.
pub open spec fn ident_ok(data: Seq<u8>) -> bool {
    data.len() >= 16 && has_magic(data) && (data[4] == 1 || data[4] == 2) && (data[5] == 1 || data[5] == 2)
        && data[6] == 1
}

/// Reads the class and byte order of an ELF file from its first 16 bytes.
/// Fails on a shorter input, a wrong magic number, an unknown class or byte
/// order, or a version other than 1.
pub fn parse_ident(data: &[u8]) -> (r: Result<(ElfClass, ElfEndian), ElfParserError>)
    ensures
        r.is_ok() == ident_ok(data@),
        r matches Err(e) ==> e.errno() == Errno::EINVAL,
        r matches Ok((c, e)) ==> (c == ElfClass::Elf32 <==> data@[4] == 1) && (e == ElfEndian::ElfLE <==> data@[5] == 1),
{
    if data.len() < ELF_IDENT_SIZE {
        return Err(invalid("File size too small"));
    }
    if data[0] != 0x7f || data[1] != 0x45 || data[2] != 0x4c || data[3] != 0x46 {
        return Err(invalid("Magic number mismatch"));
    }
    let class = match data[4] {
        1 => ElfClass::Elf32,
        2 => ElfClass::Elf64,
        _ => {
            return Err(invalid("Invalid elf class"));
        }
    };
    let endian = match data[5] {
        1 => ElfEndian::ElfLE,
        2 => ElfEndian::ElfBE,
        _ => {
            return Err(invalid("Invalid elf data format"));
        }
    };
    if data[6] != 1 {
        return Err(invalid("Unknown elf version"));
    }
    Ok((class, endian))
}

} // verus!
