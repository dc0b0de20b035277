//! Section headers.
use vstd::prelude::*;

verus! {

#[derive(PartialEq, Eq, Debug, Structural)]
pub enum ElfSectionHeaderType {
    Null,
    Progbits,
    Symtab,
    Strtab,
    Rela,
    Hash,
    Dynamic,
    Note,
    Nobits,
    Rel,
    Shlib,
    Dynsym,
    InitArray,
    FiniArray,
    PreinitArray,
    Group,
    SymtabShndx,
    Num,
    Unknown(u32),
}

/// The section type that the value `v` of a header's type field stands for.
pub open spec fn section_type_spec(v: u32) -> ElfSectionHeaderType {
    if v == 0 { ElfSectionHeaderType::Null }
    else if v == 1 { ElfSectionHeaderType::Progbits }
    else if v == 2 { ElfSectionHeaderType::Symtab }
    else if v == 3 { ElfSectionHeaderType::Strtab }
    else if v == 4 { ElfSectionHeaderType::Rela }
    else if v == 5 { ElfSectionHeaderType::Hash }
    else if v == 6 { ElfSectionHeaderType::Dynamic }
    else if v == 7 { ElfSectionHeaderType::Note }
    else if v == 8 { ElfSectionHeaderType::Nobits }
    else if v == 9 { ElfSectionHeaderType::Rel }
    else if v == 10 { ElfSectionHeaderType::Shlib }
    else if v == 11 { ElfSectionHeaderType::Dynsym }
    else if v == 14 { ElfSectionHeaderType::InitArray }
    else if v == 15 { ElfSectionHeaderType::FiniArray }
    else if v == 16 { ElfSectionHeaderType::PreinitArray }
    else if v == 17 { ElfSectionHeaderType::Group }
    else if v == 18 { ElfSectionHeaderType::SymtabShndx }
    else if v == 19 { ElfSectionHeaderType::Num }
    else { ElfSectionHeaderType::Unknown(v) }
}

pub fn section_type(v: u32) -> (r: ElfSectionHeaderType)
    ensures
        r == section_type_spec(v),
{
    match v {
        0 => ElfSectionHeaderType::Null,
        1 => ElfSectionHeaderType::Progbits,
        2 => ElfSectionHeaderType::Symtab,
        3 => ElfSectionHeaderType::Strtab,
        4 => ElfSectionHeaderType::Rela,
        5 => ElfSectionHeaderType::Hash,
        6 => ElfSectionHeaderType::Dynamic,
        7 => ElfSectionHeaderType::Note,
        8 => ElfSectionHeaderType::Nobits,
        9 => ElfSectionHeaderType::Rel,
        10 => ElfSectionHeaderType::Shlib,
        11 => ElfSectionHeaderType::Dynsym,
        14 => ElfSectionHeaderType::InitArray,
        15 => ElfSectionHeaderType::FiniArray,
        16 => ElfSectionHeaderType::PreinitArray,
        17 => ElfSectionHeaderType::Group,
        18 => ElfSectionHeaderType::SymtabShndx,
        19 => ElfSectionHeaderType::Num,
        t => ElfSectionHeaderType::Unknown(t),
    }
}

/// A 32-bit section header, field by field.
pub struct Elf32SectionHeader {
    pub name: u32,
    pub typ: u32,
    pub flags: u32,
    pub addr: u32,
    pub offset: u32,
    pub size: u32,
    pub link: u32,
    pub info: u32,
    pub addralign: u32,
    pub entsize: u32,
}

impl Elf32SectionHeader {
    pub fn get_type(&self) -> (r: ElfSectionHeaderType)
        ensures
            r == section_type_spec(self.typ),
    {
        section_type(self.typ)
    }
}

} // verus!
