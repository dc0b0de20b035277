//! Section headers, sections and the symbol table of an ELF file.
use vstd::prelude::*;
use crate::elf::bytes::{read_u16, read_u32, read_word, u16_at, u32_at, word_at};
use crate::elf::error::{invalid, ElfParserError};
use crate::elf::ident::{ident_ok, parse_ident, ElfClass, ElfEndian, ELF_IDENT_SIZE};
use crate::elf::section::{section_type, section_type_spec, ElfSectionHeaderType};
use crate::elf::strtab::{c_string_at, read_at};
use crate::posix::Errno;
use crate::elf::symbol::Symbol;

verus! {

/// The file header that follows the identification bytes, with 32-bit fields
/// widened.
#[derive(Clone, Copy, PartialEq, Eq, Debug)]
pub struct ElfHeader {
    pub typ: u16,
    pub machine: u16,
    pub version: u32,
    pub entry: u64,
    pub phoff: u64,
    pub shoff: u64,
    pub flags: u32,
    pub ehsize: u16,
    pub phentsize: u16,
    pub phnum: u16,
    pub shentsize: u16,
    pub shnum: u16,
    pub shstrndx: u16,
}

/// The size of the file header after the identification bytes.
pub open spec fn header_size(wide: bool) -> int {
    if wide { 48 } else { 36 }
}

/// The file header whose fields start at offset `b` of `data`.
pub open spec fn header_at(data: Seq<u8>, b: int, wide: bool, le: bool) -> ElfHeader {
    let w = if wide { 8int } else { 4int };
    let rest = 8 + 3 * w;
    ElfHeader {
        typ: u16_at(data, b, le) as u16,
        machine: u16_at(data, b + 2, le) as u16,
        version: u32_at(data, b + 4, le) as u32,
        entry: word_at(data, b + 8, wide, le) as u64,
        phoff: word_at(data, b + 8 + w, wide, le) as u64,
        shoff: word_at(data, b + 8 + 2 * w, wide, le) as u64,
        flags: u32_at(data, b + rest, le) as u32,
        ehsize: u16_at(data, b + rest + 4, le) as u16,
        phentsize: u16_at(data, b + rest + 6, le) as u16,
        phnum: u16_at(data, b + rest + 8, le) as u16,
        shentsize: u16_at(data, b + rest + 10, le) as u16,
        shnum: u16_at(data, b + rest + 12, le) as u16,
        shstrndx: u16_at(data, b + rest + 14, le) as u16,
    }
}

/// The file header of an ELF file, after its identification bytes.
pub open spec fn header_spec(data: Seq<u8>, wide: bool, le: bool) -> ElfHeader {
    header_at(data, 16, wide, le)
}

impl ElfHeader {
    /// Reads a file header from the start of `data`: 36 bytes in a 32-bit file,
    /// 48 in a 64-bit one.
    pub fn unpack(data: &[u8], wide: bool, le: bool) -> (r: Result<ElfHeader, ElfParserError>)
        ensures
            r.is_ok() == (data@.len() >= header_size(wide)),
            r matches Ok(h) ==> h == header_at(data@, 0, wide, le),
            r matches Err(e) ==> e.errno() == Errno::EINVAL,
    {
        read_header(data, 0, wide, le)
    }
}

fn read_header(data: &[u8], b: usize, wide: bool, le: bool) -> (r: Result<ElfHeader, ElfParserError>)
    ensures
        r.is_ok() == (b + header_size(wide) <= data@.len()),
        r matches Ok(h) ==> h == header_at(data@, b as int, wide, le),
        r matches Err(e) ==> e.errno() == Errno::EINVAL,
{
    let need: usize = if wide { 48 } else { 36 };
    if data.len() < b || data.len() - b < need {
        return Err(invalid("Failed to parse ELF header"));
    }
    let w: usize = if wide { 8 } else { 4 };
    let rest = b + 8 + 3 * w;
    Ok(ElfHeader {
        typ: read_u16(data, b, le),
        machine: read_u16(data, b + 2, le),
        version: read_u32(data, b + 4, le),
        entry: read_word(data, b + 8, wide, le),
        phoff: read_word(data, b + 8 + w, wide, le),
        shoff: read_word(data, b + 8 + 2 * w, wide, le),
        flags: read_u32(data, rest, le),
        ehsize: read_u16(data, rest + 4, le),
        phentsize: read_u16(data, rest + 6, le),
        phnum: read_u16(data, rest + 8, le),
        shentsize: read_u16(data, rest + 10, le),
        shnum: read_u16(data, rest + 12, le),
        shstrndx: read_u16(data, rest + 14, le),
    })
}

/// Reads the file header that follows the identification bytes.
pub fn parse_header(data: &[u8], wide: bool, le: bool) -> (r: Result<ElfHeader, ElfParserError>)
    ensures
        r.is_ok() == (data@.len() >= 16 + header_size(wide)),
        r matches Ok(h) ==> h == header_spec(data@, wide, le),
{
    read_header(data, ELF_IDENT_SIZE, wide, le)
}

/// A section header, with 32-bit fields widened.
#[derive(Clone, Copy, PartialEq, Eq, Debug)]
pub struct SectionHeader {
    pub name: u32,
    pub typ: u32,
    pub flags: u64,
    pub addr: u64,
    pub offset: u64,
    pub size: u64,
    pub link: u32,
    pub info: u32,
    pub addralign: u64,
    pub entsize: u64,
}

/// The size of a section header.
pub open spec fn section_header_size(wide: bool) -> int {
    if wide { 64 } else { 40 }
}

/// The section header at `off`.
pub open spec fn section_header_spec(data: Seq<u8>, off: int, wide: bool, le: bool) -> SectionHeader {
    if wide {
        SectionHeader {
            name: u32_at(data, off, le) as u32,
            typ: u32_at(data, off + 4, le) as u32,
            flags: word_at(data, off + 8, true, le) as u64,
            addr: word_at(data, off + 16, true, le) as u64,
            offset: word_at(data, off + 24, true, le) as u64,
            size: word_at(data, off + 32, true, le) as u64,
            link: u32_at(data, off + 40, le) as u32,
            info: u32_at(data, off + 44, le) as u32,
            addralign: word_at(data, off + 48, true, le) as u64,
            entsize: word_at(data, off + 56, true, le) as u64,
        }
    } else {
        SectionHeader {
            name: u32_at(data, off, le) as u32,
            typ: u32_at(data, off + 4, le) as u32,
            flags: word_at(data, off + 8, false, le) as u64,
            addr: word_at(data, off + 12, false, le) as u64,
            offset: word_at(data, off + 16, false, le) as u64,
            size: word_at(data, off + 20, false, le) as u64,
            link: u32_at(data, off + 24, le) as u32,
            info: u32_at(data, off + 28, le) as u32,
            addralign: word_at(data, off + 32, false, le) as u64,
            entsize: word_at(data, off + 36, false, le) as u64,
        }
    }
}

fn parse_section_header(data: &[u8], off: usize, wide: bool, le: bool) -> (r: SectionHeader)
    requires
        off + section_header_size(wide) <= data@.len(),
    ensures
        r == section_header_spec(data@, off as int, wide, le),
{
    let len = data.len();
    assert(off + section_header_size(wide) <= len);
    if wide {
        SectionHeader {
            name: read_u32(data, off, le),
            typ: read_u32(data, off + 4, le),
            flags: read_word(data, off + 8, true, le),
            addr: read_word(data, off + 16, true, le),
            offset: read_word(data, off + 24, true, le),
            size: read_word(data, off + 32, true, le),
            link: read_u32(data, off + 40, le),
            info: read_u32(data, off + 44, le),
            addralign: read_word(data, off + 48, true, le),
            entsize: read_word(data, off + 56, true, le),
        }
    } else {
        SectionHeader {
            name: read_u32(data, off, le),
            typ: read_u32(data, off + 4, le),
            flags: read_word(data, off + 8, false, le),
            addr: read_word(data, off + 12, false, le),
            offset: read_word(data, off + 16, false, le),
            size: read_word(data, off + 20, false, le),
            link: read_u32(data, off + 24, le),
            info: read_u32(data, off + 28, le),
            addralign: read_word(data, off + 32, false, le),
            entsize: read_word(data, off + 36, false, le),
        }
    }
}

/// Reads section headers, and the contents they point at, from a file.
pub struct SectionParser {
    pub wide: bool,
    pub le: bool,
    pub header: ElfHeader,
}

impl SectionParser {
    /// Reads the file header of a file of class `class` and byte order `endian`.
    pub fn new(data: &[u8], class: ElfClass, endian: ElfEndian) -> (r: Result<SectionParser, ElfParserError>)
        ensures
            r.is_ok() == (data@.len() >= 16 + header_size(class == ElfClass::Elf64)),
            r matches Ok(p) ==> p.wide == (class == ElfClass::Elf64) && p.le == (endian == ElfEndian::ElfLE)
                && p.header == header_spec(data@, p.wide, p.le),
    {
        let wide = class == ElfClass::Elf64;
        let le = endian == ElfEndian::ElfLE;
        match parse_header(data, wide, le) {
            Ok(header) => Ok(SectionParser { wide, le, header }),
            Err(e) => Err(e),
        }
    }

    /// Section header `idx` and the section's contents (empty for a section
    /// that occupies no space in the file). Fails where `idx` is not below the
    /// header count, or the header or the contents lie outside `data`, or the
    /// header entry size is too small for a section header.
    pub fn nth<'a>(&self, data: &'a [u8], idx: usize) -> (r: Result<(SectionHeader, &'a [u8]), ElfParserError>)
        ensures
            r matches Ok((sh, content)) ==> {
                let off = self.header.shoff + self.header.shentsize * idx;
                &&& idx < self.header.shnum
                &&& off + self.header.shentsize <= data@.len()
                &&& section_header_size(self.wide) <= self.header.shentsize
                &&& sh == section_header_spec(data@, off, self.wide, self.le)
                &&& if section_type_spec(sh.typ) == ElfSectionHeaderType::Nobits {
                    content@.len() == 0
                } else {
                    sh.offset + sh.size <= data@.len()
                        && content@ == data@.subrange(sh.offset as int, sh.offset + sh.size)
                }
            },
            idx >= self.header.shnum ==> r.is_err(),
    {
        if idx >= self.header.shnum as usize {
            return Err(invalid("Section index out of range"));
        }
        let size = self.header.shentsize as u64;
        let len = data.len() as u64;
        assert(size * idx <= 0xFFFF * 0xFFFF) by (nonlinear_arith)
            requires
                size <= 0xFFFF,
                idx < 0xFFFF,
        {
        }
        let shift: u64 = size * (idx as u64);
        if self.header.shoff > len || shift > len - self.header.shoff || size > len - self.header.shoff - shift {
            return Err(invalid("Elf section header out of range"));
        }
        let off = (self.header.shoff + shift) as usize;
        let need: u64 = if self.wide { 64 } else { 40 };
        if size < need {
            return Err(invalid("Failed to parse elf section header"));
        }
        let sh = parse_section_header(data, off, self.wide, self.le);
        if section_type(sh.typ) == ElfSectionHeaderType::Nobits {
            return Ok((sh, &data[0..0]));
        }
        if sh.offset > len || sh.size > len - sh.offset {
            return Err(invalid("Elf section content out of range"));
        }
        let start = sh.offset as usize;
        let end = (sh.offset + sh.size) as usize;
        Ok((sh, &data[start..end]))
    }
}

/// One section, named.
#[derive(PartialEq, Debug)]
pub struct ElfSection<'a> {
    pub name: &'a [u8],
    pub typ: ElfSectionHeaderType,
    pub flags: u64,
    pub addr: u64,
    pub link: u32,
    pub info: u32,
    pub addralign: u64,
    pub entsize: u64,
    pub content: &'a [u8],
}

/// An ELF file read into its sections.
#[derive(Debug)]
pub struct ElfParser<'a> {
    pub class: ElfClass,
    pub endian: ElfEndian,
    pub sections: Vec<ElfSection<'a>>,
}

impl<'a> ElfParser<'a> {
    /// Reads the identification bytes, the file header and every section of
    /// `data`, naming the sections from the section-name string table.
    pub fn from_bytes(data: &'a [u8]) -> (r: Result<ElfParser<'a>, ElfParserError>)
        ensures
            r matches Ok(p) ==> {
                &&& ident_ok(data@)
                &&& data@.len() >= 16 + header_size(p.class == ElfClass::Elf64)
                &&& p.sections@.len() == header_spec(data@, p.class == ElfClass::Elf64, p.endian == ElfEndian::ElfLE).shnum
                &&& (p.class == ElfClass::Elf32 <==> data@[4] == 1)
                &&& (p.endian == ElfEndian::ElfLE <==> data@[5] == 1)
            },
    {
        let (class, endian) = match parse_ident(data) {
            Ok(ce) => ce,
            Err(e) => {
                return Err(e);
            }
        };
        Self::parse_sections(data, class, endian)
    }

    fn parse_sections(data: &'a [u8], class: ElfClass, endian: ElfEndian) -> (r: Result<ElfParser<'a>, ElfParserError>)
        ensures
            r matches Ok(p) ==> {
                &&& p.class == class
                &&& p.endian == endian
                &&& data@.len() >= 16 + header_size(class == ElfClass::Elf64)
                &&& p.sections@.len() == header_spec(data@, class == ElfClass::Elf64, endian == ElfEndian::ElfLE).shnum
            },
    {
        let parser = match SectionParser::new(data, class, endian) {
            Ok(p) => p,
            Err(e) => {
                return Err(e);
            }
        };
        let strtab_data: &'a [u8] = match parser.nth(data, parser.header.shstrndx as usize) {
            Ok((_, content)) => content,
            Err(e) => {
                return Err(e);
            }
        };
        let mut sections: Vec<ElfSection<'a>> = Vec::new();
        let shnum = parser.header.shnum;
        let mut idx: u16 = 0;
        while idx < shnum
            invariant
                shnum == parser.header.shnum,
                sections@.len() == idx,
                idx <= shnum,
            decreases shnum - idx,
        {
            let (sh, content) = match parser.nth(data, idx as usize) {
                Ok(x) => x,
                Err(e) => {
                    return Err(e);
                }
            };
            let name = read_at(strtab_data, sh.name as usize);
            sections.push(ElfSection {
                name,
                typ: section_type(sh.typ),
                flags: sh.flags,
                addr: sh.addr,
                link: sh.link,
                info: sh.info,
                addralign: sh.addralign,
                entsize: sh.entsize,
                content,
            });
            idx = idx + 1;
        }
        Ok(ElfParser { class, endian, sections })
    }

    /// A cursor over the symbols of every symbol table of the file.
    pub fn iter_symbols(&'a self) -> (r: ElfSymtabIterator<'a>)
        ensures
            r.at_start(),
            r.section_index() == 0,
            r.symbol_index() == 0,
            r.sections() == self.sections@,
            r.wide() == (self.class == ElfClass::Elf64),
            r.little_endian() == (self.endian == ElfEndian::ElfLE),
    {
        ElfSymtabIterator::new(self.class, self.endian, &self.sections)
    }
}

/// The size of a symbol table entry in a 32-bit file.
pub const ELF32_SYMTAB_ENTRY_SIZE: u64 = 16;

/// The size of a symbol table entry in a 64-bit file.
pub const ELF64_SYMTAB_ENTRY_SIZE: u64 = 24;

/// The number of entries of a symbol table section.
pub open spec fn entry_count(sec: ElfSection) -> int {
    (sec.content@.len() as int) / (sec.entsize as int)
}

/// Where a walk over the symbol tables of `secs` from section `s`, entry `j`
/// stops: `(0, s, j)` past the last section, `(1, s, j)` at a symbol table
/// whose entry size is 0, `(2, s, j)` at an entry.
pub open spec fn scan(secs: Seq<ElfSection>, s: int, j: int) -> (int, int, int)
    decreases secs.len() - s,
{
    if s < 0 || s >= secs.len() {
        (0, s, j)
    } else if secs[s].typ == ElfSectionHeaderType::Symtab && secs[s].entsize == 0 {
        (1, s, j)
    } else if secs[s].typ == ElfSectionHeaderType::Symtab && j < entry_count(secs[s]) {
        (2, s, j)
    } else {
        scan(secs, s + 1, 0)
    }
}

/// A walk only moves forward, and stops at an entry that exists.
pub proof fn lemma_scan_forward(secs: Seq<ElfSection>, s: int, j: int)
    requires
        0 <= s,
        0 <= j,
    ensures
        ({
            let (kind, s2, j2) = scan(secs, s, j);
            &&& s2 >= s
            &&& kind == 0 || kind == 1 || kind == 2
            &&& s2 == s ==> j2 == j
            &&& kind == 2 ==> 0 <= s2 < secs.len() && 0 <= j2 < entry_count(secs[s2])
                && secs[s2].entsize > 0 && j2 < secs[s2].content@.len()
        }),
    decreases secs.len() - s,
{
    if s < secs.len() {
        if secs[s].typ == ElfSectionHeaderType::Symtab && secs[s].entsize > 0 && j < entry_count(secs[s]) {
            let len = secs[s].content@.len() as int;
            let e = secs[s].entsize as int;
            assert(len / e <= len) by (nonlinear_arith)
                requires
                    e > 0,
                    len >= 0,
            {
            }
        } else if !(secs[s].typ == ElfSectionHeaderType::Symtab && secs[s].entsize == 0) {
            lemma_scan_forward(secs, s + 1, 0);
        }
    }
}

/// The name, value and info byte of the entry at `start` of symbol table `s`.
pub open spec fn entry_view(secs: Seq<ElfSection>, s: int, start: int, wide: bool, le: bool) -> (Seq<u8>, int, u8) {
    let c = secs[s].content@;
    let strtab = secs[secs[s].link as int].content@;
    (
        c_string_at(strtab, u32_at(c, start, le)),
        word_at(c, start + (if wide { 8int } else { 4int }), wide, le),
        c[start + (if wide { 4int } else { 12int })],
    )
}

/// The entries of the symbol tables of `secs` from section `s`, entry `j` on,
/// in walk order; `None` where the walk meets a symbol table with entry size 0
/// or an entry it cannot read.
pub open spec fn walk(secs: Seq<ElfSection>, wide: bool, le: bool, s: int, j: int) -> Option<Seq<(Seq<u8>, int, u8)>>
    decreases secs.len() - s, if 0 <= s < secs.len() { secs[s].content@.len() - j } else { 0 },
{
    if s < 0 || j < 0 {
        None
    } else {
        let (kind, s2, j2) = scan(secs, s, j);
        if kind == 2 {
            let start = (secs[s2].entsize as int) * j2;
            if entry_readable(secs, s2, start, wide) {
                proof {
                    lemma_scan_forward(secs, s, j);
                }
                match walk(secs, wide, le, s2, j2 + 1) {
                    Some(rest) => Some(seq![entry_view(secs, s2, start, wide, le)] + rest),
                    None => None,
                }
            } else {
                None
            }
        } else if kind == 1 {
            None
        } else {
            Some(Seq::empty())
        }
    }
}

/// The entry at `start` of a symbol table can be read and links to a string table.
pub open spec fn entry_readable(secs: Seq<ElfSection>, s: int, start: int, wide: bool) -> bool {
    let sec = secs[s];
    &&& start + (if wide { ELF64_SYMTAB_ENTRY_SIZE as int } else { ELF32_SYMTAB_ENTRY_SIZE as int }) <= sec.content@.len()
    &&& (sec.link as int) < secs.len()
    &&& secs[sec.link as int].typ == ElfSectionHeaderType::Strtab
}

/// The symbol read from the entry at `start` of symbol table `s`.
pub open spec fn symbol_matches(sym: Symbol, secs: Seq<ElfSection>, s: int, start: int, wide: bool, le: bool) -> bool {
    let c = secs[s].content@;
    let strtab = secs[secs[s].link as int].content@;
    if wide {
        &&& sym.name@ == c_string_at(strtab, u32_at(c, start, le))
        &&& sym.info == c[start + 4]
        &&& sym.other == c[start + 5]
        &&& sym.shndx == u16_at(c, start + 6, le)
        &&& sym.value == word_at(c, start + 8, true, le)
        &&& sym.size == word_at(c, start + 16, true, le)
    } else {
        &&& sym.name@ == c_string_at(strtab, u32_at(c, start, le))
        &&& sym.value == word_at(c, start + 4, false, le)
        &&& sym.size == word_at(c, start + 8, false, le)
        &&& sym.info == c[start + 12]
        &&& sym.other == c[start + 13]
        &&& sym.shndx == u16_at(c, start + 14, le)
    }
}

/// Walks the symbol tables of a list of sections, entry by entry.
pub struct ElfSymtabIterator<'a> {
    class: ElfClass,
    le: bool,
    sections: &'a Vec<ElfSection<'a>>,
    curr_secidx: usize,
    curr_symidx: usize,
}

impl<'a> ElfSymtabIterator<'a> {
    pub closed spec fn at_start(&self) -> bool {
        self.curr_secidx == 0 && self.curr_symidx == 0
    }

    /// The section the cursor is in.
    pub closed spec fn section_index(&self) -> int {
        self.curr_secidx as int
    }

    /// The entry the cursor is at within its section.
    pub closed spec fn symbol_index(&self) -> int {
        self.curr_symidx as int
    }

    pub closed spec fn section_count(&self) -> int {
        self.sections@.len() as int
    }

    /// The cursor indices are never negative.
    pub proof fn lemma_cursor(&self)
        ensures
            0 <= self.section_index(),
            0 <= self.symbol_index(),
    {
    }

    /// The sections walked.
    pub closed spec fn sections(&self) -> Seq<ElfSection<'a>> {
        self.sections@
    }

    /// The entries are those of a 64-bit file.
    pub closed spec fn wide(&self) -> bool {
        self.class == ElfClass::Elf64
    }

    /// The entries are little-endian.
    pub closed spec fn little_endian(&self) -> bool {
        self.le
    }

    pub fn new(class: ElfClass, endian: ElfEndian, sections: &'a Vec<ElfSection<'a>>) -> (r: Self)
        ensures
            r.at_start(),
            r.section_index() == 0,
            r.symbol_index() == 0,
            r.section_count() == sections@.len(),
            r.sections() == sections@,
            r.wide() == (class == ElfClass::Elf64),
            r.little_endian() == (endian == ElfEndian::ElfLE),
    {
        ElfSymtabIterator { class, le: endian == ElfEndian::ElfLE, sections, curr_secidx: 0, curr_symidx: 0 }
    }

    /// The next symbol: `None` once no symbol table has entries left, an error
    /// for a symbol table with entry size 0, an entry cut short, or a link to a
    /// section that is missing or not a string table. After an error the
    /// cursor does not move past the entry.
    pub fn next(&mut self) -> (r: Option<Result<Symbol<'a>, ElfParserError>>)
        ensures
            final(self).section_count() == old(self).section_count(),
            final(self).sections() == old(self).sections(),
            final(self).wide() == old(self).wide(),
            final(self).little_endian() == old(self).little_endian(),
            ({
                let secs = old(self).sections();
                let (kind, s, j) = scan(secs, old(self).section_index(), old(self).symbol_index());
                let start = (secs[s].entsize as int) * j;
                &&& kind == 0 ==> r.is_none()
                &&& kind == 1 ==> (r matches Some(Err(e)) && e.errno() == Errno::EINVAL)
                &&& kind == 2 && !entry_readable(secs, s, start, old(self).wide()) ==>
                    (r matches Some(Err(e)) && e.errno() == Errno::EINVAL)
                &&& kind == 2 && entry_readable(secs, s, start, old(self).wide()) ==> {
                    &&& (r matches Some(Ok(sym)) && symbol_matches(sym, secs, s, start, old(self).wide(), old(self).little_endian()))
                    &&& final(self).section_index() == s
                    &&& final(self).symbol_index() == j + 1
                }
            }),
            r.is_none() ==> final(self).section_index() >= final(self).section_count(),
            r matches Some(Ok(_)) ==> {
                ||| final(self).section_index() > old(self).section_index()
                ||| (final(self).section_index() == old(self).section_index()
                    && final(self).symbol_index() > old(self).symbol_index())
            },
    {
        let mut secidx = self.curr_secidx;
        let mut symidx = self.curr_symidx;
        let seccnt = self.sections.len();
        let mut found = false;
        while secidx < seccnt && !found
            invariant
                seccnt == self.sections@.len(),
                secidx >= old(self).curr_secidx,
                secidx == old(self).curr_secidx ==> symidx == old(self).curr_symidx,
                self.sections == old(self).sections,
                self.curr_secidx == old(self).curr_secidx,
                self.curr_symidx == old(self).curr_symidx,
                found ==> secidx < seccnt && self.sections@[secidx as int].entsize > 0
                    && (symidx as int) < (self.sections@[secidx as int].content@.len() as int) / (self.sections@[secidx as int].entsize as int),
                found ==> self.sections@[secidx as int].typ == ElfSectionHeaderType::Symtab,
                found ==> scan(self.sections@, old(self).curr_secidx as int, old(self).curr_symidx as int) == (2int, secidx as int, symidx as int),
                !found ==> scan(self.sections@, old(self).curr_secidx as int, old(self).curr_symidx as int)
                    == scan(self.sections@, secidx as int, symidx as int),
            decreases seccnt - secidx, if found { 0int } else { 1int },
        {
            let sec = &self.sections[secidx];
            if sec.typ == ElfSectionHeaderType::Symtab {
                if sec.entsize == 0 {
                    return Some(Err(invalid("Symtab section entry size is 0 (file broken)")));
                }
                if (symidx as u64) < (sec.content.len() as u64) / sec.entsize {
                    found = true;
                }
            }
            if !found {
                secidx = secidx + 1;
                symidx = 0;
            }
        }
        self.curr_secidx = secidx;
        self.curr_symidx = symidx;
        if !found {
            return None;
        }
        let sec = &self.sections[secidx];
        let wide = self.class == ElfClass::Elf64;
        let le = self.le;
        let clen = sec.content.len();
        let es = sec.entsize;
        assert((es as int) * (symidx as int) < clen) by (nonlinear_arith)
            requires
                es > 0,
                (symidx as int) < (clen as int) / (es as int),
        {
        }
        let start: usize = (es * (symidx as u64)) as usize;
        let content = sec.content;
        assert(start < content@.len());
        let need: usize = if wide { ELF64_SYMTAB_ENTRY_SIZE as usize } else { ELF32_SYMTAB_ENTRY_SIZE as usize };
        if content.len() - start < need {
            return Some(Err(invalid("Failed to parse symtab entry")));
        }
        let (nameoff, value, size, info, other, shndx) = if wide {
            (
                read_u32(content, start, le),
                read_word(content, start + 8, true, le),
                read_word(content, start + 16, true, le),
                content[start + 4],
                content[start + 5],
                read_u16(content, start + 6, le),
            )
        } else {
            (
                read_u32(content, start, le),
                read_word(content, start + 4, false, le),
                read_word(content, start + 8, false, le),
                content[start + 12],
                content[start + 13],
                read_u16(content, start + 14, le),
            )
        };
        if sec.link as usize >= seccnt {
            return Some(Err(invalid("Symtab refer invalid strtab section index")));
        }
        let strtab_sec = &self.sections[sec.link as usize];
        if strtab_sec.typ != ElfSectionHeaderType::Strtab {
            return Some(Err(invalid("Symtab linked section is not SHT_STRTAB")));
        }
        let name = read_at(strtab_sec.content, nameoff as usize);
        self.curr_symidx = symidx + 1;
        Some(Ok(Symbol { name, value, size, info, other, shndx }))
    }
}

} // verus!
