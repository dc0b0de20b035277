//! Entries of an ELF symbol table.
use vstd::prelude::*;

verus! {

#[derive(PartialEq, Eq, Debug, Structural)]
pub enum ElfSymbolType {
    Notype,
    Object,
    Func,
    Section,
    File,
    Common,
    Tls,
    Num,
    Loos,
    GnuIfunc,
    Hios,
    Loproc,
    Hiproc,
    Unknown(u8),
}

#[derive(PartialEq, Debug)]
pub enum ElfSymbolBind {
    Local,
    Global,
    Weak,
    Num,
    Loos,
    GnuUnique,
    Hios,
    Loproc,
    Hiproc,
    Unknown(u8),
}

/// The symbol type held in the low four bits of `info`.
pub open spec fn symbol_type_spec(t: u8) -> ElfSymbolType {
    if t == 0 { ElfSymbolType::Notype }
    else if t == 1 { ElfSymbolType::Object }
    else if t == 2 { ElfSymbolType::Func }
    else if t == 3 { ElfSymbolType::Section }
    else if t == 4 { ElfSymbolType::File }
    else if t == 5 { ElfSymbolType::Common }
    else if t == 6 { ElfSymbolType::Tls }
    else if t == 7 { ElfSymbolType::Num }
    else if t == 10 { ElfSymbolType::GnuIfunc }
    else if t == 12 { ElfSymbolType::Hios }
    else if t == 13 { ElfSymbolType::Loproc }
    else if t == 15 { ElfSymbolType::Hiproc }
    else { ElfSymbolType::Unknown(t) }
}

/// The binding held in the high four bits of `info`.
pub open spec fn symbol_bind_spec(b: u8) -> ElfSymbolBind {
    if b == 0 { ElfSymbolBind::Local }
    else if b == 1 { ElfSymbolBind::Global }
    else if b == 2 { ElfSymbolBind::Weak }
    else if b == 3 { ElfSymbolBind::Num }
    else if b == 10 { ElfSymbolBind::GnuUnique }
    else if b == 12 { ElfSymbolBind::Hios }
    else if b == 13 { ElfSymbolBind::Loproc }
    else if b == 15 { ElfSymbolBind::Hiproc }
    else { ElfSymbolBind::Unknown(b) }
}

/// One symbol, with its name read from the string table.
#[derive(PartialEq, Debug)]
pub struct Symbol<'a> {
    pub name: &'a [u8],
    pub value: u64,
    pub size: u64,
    pub info: u8,
    pub other: u8,
    pub shndx: u16,
}

impl<'a> Symbol<'a> {
    pub fn get_type(&self) -> (r: ElfSymbolType)
        ensures
            r == symbol_type_spec((self.info % 16) as u8),
    {
        match self.info % 16 {
            0 => ElfSymbolType::Notype,
            1 => ElfSymbolType::Object,
            2 => ElfSymbolType::Func,
            3 => ElfSymbolType::Section,
            4 => ElfSymbolType::File,
            5 => ElfSymbolType::Common,
            6 => ElfSymbolType::Tls,
            7 => ElfSymbolType::Num,
            10 => ElfSymbolType::GnuIfunc,
            12 => ElfSymbolType::Hios,
            13 => ElfSymbolType::Loproc,
            15 => ElfSymbolType::Hiproc,
            t => ElfSymbolType::Unknown(t),
        }
    }

    pub fn get_bind(&self) -> (r: ElfSymbolBind)
        ensures
            r == symbol_bind_spec((self.info / 16) as u8),
    {
        match self.info / 16 {
            0 => ElfSymbolBind::Local,
            1 => ElfSymbolBind::Global,
            2 => ElfSymbolBind::Weak,
            3 => ElfSymbolBind::Num,
            10 => ElfSymbolBind::GnuUnique,
            12 => ElfSymbolBind::Hios,
            13 => ElfSymbolBind::Loproc,
            15 => ElfSymbolBind::Hiproc,
            b => ElfSymbolBind::Unknown(b),
        }
    }
}

} // verus!
