use kallsyms::elf::error::ElfParserError;
use kallsyms::elf::ident::{parse_ident, ElfClass, ElfEndian};
use kallsyms::elf::section::{Elf32SectionHeader, ElfSectionHeaderType};
use kallsyms::elf::strtab::{read_at, read_one_from_offset};
use kallsyms::elf::symbol::{ElfSymbolBind, ElfSymbolType, Symbol};
use kallsyms::posix::Errno;

#[test]
fn errno_clone() {
    assert_eq!(Errno::EINVAL, Errno::EINVAL.clone());
}

#[test]
fn errno_debug() {
    assert_eq!(format!("{:?}", Errno::EINVAL), "EINVAL");
}

#[test]
fn elfparsererror_partialeq() {
    let err1 = ElfParserError::new(Errno::EINVAL, format!("Test"));
    let err2 = ElfParserError::new(Errno::EINVAL, format!("Test"));
    assert_eq!(err1, err2);
}

#[test]
fn elfparsererror_debug() {
    let err = ElfParserError::new(Errno::EINVAL, format!("Test"));
    assert_eq!(format!("{:?}", err), "ElfParserError { errno: EINVAL, message: \"Test\" }");
}

#[test]
fn elfclass_partialeq() {
    assert_eq!(ElfClass::Elf32, ElfClass::Elf32.clone());
    assert_ne!(ElfClass::Elf32, ElfClass::Elf64);
}

#[test]
fn elfclass_debug() {
    assert_eq!(format!("{:?}", ElfClass::Elf32), "Elf32");
}

#[test]
fn elfendian_partialeq() {
    assert_eq!(ElfEndian::ElfLE, ElfEndian::ElfLE.clone());
    assert_ne!(ElfEndian::ElfLE, ElfEndian::ElfBE);
}

#[test]
fn elfendian_debug() {
    assert_eq!(format!("{:?}", ElfEndian::ElfLE), "ElfLE");
}

#[test]
fn incomplete() {
    parse_ident(&[
        0x7fu8, b'E', b'L', b'F', // magic
        1u8, // class
        1u8, // data
        1u8, // version
        3u8, // OS ABI
        0u8, // ABI version
        0u8, 0u8, 0u8, // padding
        0u8, 0u8, 0u8, // padding
    ])
    .expect_err("parse_ident for incomlete data unexpectedly succeed");
}

#[test]
fn invalid_magic() {
    parse_ident(&[
        0u8, 0u8, 0u8, 0u8, // magic
        1u8, 1u8, 1u8, 3u8, 0u8, 0u8, 0u8, 0u8, 0u8, 0u8, 0u8, 0u8,
    ])
    .expect_err("parse_ident for invalid magic unexpectedly succeed");
}

#[test]
fn invalid_class() {
    parse_ident(&[
        0x7fu8, b'E', b'L', b'F', 0u8, /* error */ 1u8, 1u8, 3u8, 0u8, 0u8, 0u8, 0u8, 0u8, 0u8, 0u8, 0u8,
    ])
    .expect_err("parse_ident for invalid magic unexpectedly succeed");
}

#[test]
fn invalid_data() {
    parse_ident(&[
        0x7fu8, b'E', b'L', b'F', 1u8, 0u8, /* error */ 1u8, 3u8, 0u8, 0u8, 0u8, 0u8, 0u8, 0u8, 0u8, 0u8,
    ])
    .expect_err("parse_ident for invalid magic unexpectedly succeed");
}

#[test]
fn invalid_version() {
    parse_ident(&[
        0x7fu8, b'E', b'L', b'F', 1u8, 1u8, 0u8, /* error */ 3u8, 0u8, 0u8, 0u8, 0u8, 0u8, 0u8, 0u8, 0u8,
    ])
    .expect_err("parse_ident for invalid magic unexpectedly succeed");
}

#[test]
fn valid_32bit_little() {
    assert_eq!(
        parse_ident(&[0x7fu8, b'E', b'L', b'F', 1u8, 1u8, 1u8, 3u8, 0u8, 0u8, 0u8, 0u8, 0u8, 0u8, 0u8, 0u8,]),
        Ok((ElfClass::Elf32, ElfEndian::ElfLE))
    );
}

#[test]
fn valid_64bit_little() {
    assert_eq!(
        parse_ident(&[0x7fu8, b'E', b'L', b'F', 2u8, 1u8, 1u8, 3u8, 0u8, 0u8, 0u8, 0u8, 0u8, 0u8, 0u8, 0u8,]),
        Ok((ElfClass::Elf64, ElfEndian::ElfLE))
    );
}

#[test]
fn valid_32bit_big() {
    assert_eq!(
        parse_ident(&[0x7fu8, b'E', b'L', b'F', 1u8, 2u8, 1u8, 3u8, 0u8, 0u8, 0u8, 0u8, 0u8, 0u8, 0u8, 0u8,]),
        Ok((ElfClass::Elf32, ElfEndian::ElfBE))
    );
}

#[test]
fn sectionheadertype_partialeq() {
    let a = ElfSectionHeaderType::Progbits;
    assert_eq!(a, ElfSectionHeaderType::Progbits);
}

#[test]
fn sectionheadertype_debug() {
    let a = ElfSectionHeaderType::Progbits;
    assert_eq!(format!("{:?}", a), "Progbits");
}

#[test]
fn elfsectionheader_get_type() {
    let mut a = Elf32SectionHeader {
        name: 0,
        typ: 0,
        flags: 0,
        addr: 0,
        offset: 0,
        size: 0,
        link: 0,
        info: 0,
        addralign: 0,
        entsize: 0,
    };
    a.typ = 0;
    assert_eq!(a.get_type(), ElfSectionHeaderType::Null);
    a.typ = 1;
    assert_eq!(a.get_type(), ElfSectionHeaderType::Progbits);
    a.typ = 2;
    assert_eq!(a.get_type(), ElfSectionHeaderType::Symtab);
    a.typ = 3;
    assert_eq!(a.get_type(), ElfSectionHeaderType::Strtab);
    a.typ = 4;
    assert_eq!(a.get_type(), ElfSectionHeaderType::Rela);
    a.typ = 5;
    assert_eq!(a.get_type(), ElfSectionHeaderType::Hash);
    a.typ = 6;
    assert_eq!(a.get_type(), ElfSectionHeaderType::Dynamic);
    a.typ = 7;
    assert_eq!(a.get_type(), ElfSectionHeaderType::Note);
    a.typ = 8;
    assert_eq!(a.get_type(), ElfSectionHeaderType::Nobits);
    a.typ = 9;
    assert_eq!(a.get_type(), ElfSectionHeaderType::Rel);
    a.typ = 10;
    assert_eq!(a.get_type(), ElfSectionHeaderType::Shlib);
    a.typ = 11;
    assert_eq!(a.get_type(), ElfSectionHeaderType::Dynsym);
    a.typ = 14;
    assert_eq!(a.get_type(), ElfSectionHeaderType::InitArray);
    a.typ = 15;
    assert_eq!(a.get_type(), ElfSectionHeaderType::FiniArray);
    a.typ = 16;
    assert_eq!(a.get_type(), ElfSectionHeaderType::PreinitArray);
    a.typ = 17;
    assert_eq!(a.get_type(), ElfSectionHeaderType::Group);
    a.typ = 18;
    assert_eq!(a.get_type(), ElfSectionHeaderType::SymtabShndx);
    a.typ = 19;
    assert_eq!(a.get_type(), ElfSectionHeaderType::Num);
    a.typ = 20;
    assert_eq!(a.get_type(), ElfSectionHeaderType::Unknown(20));
}

#[test]
fn strtab_empty() {
    assert_eq!(read_at(&[], 0), &[]);
    assert_eq!(read_at(&[], 1), &[]);
    assert_eq!(read_at(&[0], 0), &[]);
}

#[test]
fn strtab_single_entry() {
    assert_eq!(read_at(&[b'a'], 0), &[b'a']);
    assert_eq!(read_at(&[b'a'], 1), &[]);
    assert_eq!(read_at(&[b'a'], 2), &[]);
    assert_eq!(read_at(&[b'a', 0], 0), &[b'a']);
    assert_eq!(read_at(&[b'a', 0], 1), &[]);
    assert_eq!(read_at(&[b'a', 0], 2), &[]);
}

#[test]
fn strtab_two_entries() {
    assert_eq!(read_at(&[b'a', 0, b'c', 0], 0), &[b'a']);
    assert_eq!(read_at(&[b'a', 0, b'c', 0], 1), &[]);
    assert_eq!(read_at(&[b'a', 0, b'c', 0], 2), &[b'c']);
    assert_eq!(read_at(&[b'a', 0, b'c', 0], 3), &[]);
    assert_eq!(read_at(&[b'a', 0, b'c', 0], 4), &[]);
    assert_eq!(read_at(&[b'a', 0, b'c', 0], 5), &[]);
}

#[test]
fn string_table_empty() {
    assert_eq!(read_one_from_offset(&[], 0), "");
    assert_eq!(read_one_from_offset(&[], 1), "");
    assert_eq!(read_one_from_offset(&[0], 0), "");
}

#[test]
fn string_table_single_entry() {
    assert_eq!(read_one_from_offset(&[b'a'], 0), "a");
    assert_eq!(read_one_from_offset(&[b'a'], 1), "");
    assert_eq!(read_one_from_offset(&[b'a'], 2), "");
    assert_eq!(read_one_from_offset(&[b'a', 0], 0), "a");
    assert_eq!(read_one_from_offset(&[b'a', 0], 1), "");
    assert_eq!(read_one_from_offset(&[b'a', 0], 2), "");
}

#[test]
fn string_table_two_entries() {
    assert_eq!(read_one_from_offset(&[b'a', 0, b'c', 0], 0), "a");
    assert_eq!(read_one_from_offset(&[b'a', 0, b'c', 0], 1), "");
    assert_eq!(read_one_from_offset(&[b'a', 0, b'c', 0], 2), "c");
    assert_eq!(read_one_from_offset(&[b'a', 0, b'c', 0], 3), "");
    assert_eq!(read_one_from_offset(&[b'a', 0, b'c', 0], 4), "");
    assert_eq!(read_one_from_offset(&[b'a', 0, b'c', 0], 5), "");
}

#[test]
fn string_table_not_utf8() {
    assert_eq!(read_one_from_offset(&[0xff, 0], 0), "** UTF8 DECODE ERROR **");
}

#[test]
fn symboltype_partialeq() {
    let a = ElfSymbolType::Object;
    assert_eq!(a, ElfSymbolType::Object);
}

#[test]
fn symboltype_debug() {
    let a = ElfSymbolType::Object;
    assert_eq!(format!("{:?}", a), "Object");
}

#[test]
fn symbolbind_partialeq() {
    let a = ElfSymbolBind::Global;
    assert_eq!(a, ElfSymbolBind::Global);
}

#[test]
fn symbolbind_debug() {
    let a = ElfSymbolBind::Global;
    assert_eq!(format!("{:?}", a), "Global");
}

#[test]
fn symbol_partialeq() {
    let a = Symbol { name: &[], value: 0, size: 0, info: 0, other: 0, shndx: 0 };
    let b = Symbol { name: &[], value: 0, size: 0, info: 0, other: 0, shndx: 0 };
    assert_eq!(a, b);
}

#[test]
fn symbol_debug() {
    let a = Symbol { name: &[], value: 1, size: 2, info: 3, other: 4, shndx: 5 };
    assert_eq!(
        format!("{:?}", a),
        "Symbol { \
         name: [], \
         value: 1, \
         size: 2, \
         info: 3, \
         other: 4, \
         shndx: 5 \
         }"
    );
}

#[test]
fn symbol_get_type_get_bind() {
    let mut a = Symbol { name: &[], value: 1, size: 2, info: 3, other: 4, shndx: 5 };
    a.info = 0x30;
    assert_eq!(a.get_type(), ElfSymbolType::Notype);
    assert_eq!(a.get_bind(), ElfSymbolBind::Num);
    a.info = 0x21;
    assert_eq!(a.get_type(), ElfSymbolType::Object);
    assert_eq!(a.get_bind(), ElfSymbolBind::Weak);
    a.info = 0x12;
    assert_eq!(a.get_type(), ElfSymbolType::Func);
    assert_eq!(a.get_bind(), ElfSymbolBind::Global);
    a.info = 0x03;
    assert_eq!(a.get_type(), ElfSymbolType::Section);
    assert_eq!(a.get_bind(), ElfSymbolBind::Local);
    a.info = 0x04;
    assert_eq!(a.get_type(), ElfSymbolType::File);
    a.info = 0x05;
    assert_eq!(a.get_type(), ElfSymbolType::Common);
    a.info = 0x06;
    assert_eq!(a.get_type(), ElfSymbolType::Tls);
    a.info = 0x07;
    assert_eq!(a.get_type(), ElfSymbolType::Num);
    a.info = 0xfa;
    assert_eq!(a.get_type(), ElfSymbolType::GnuIfunc);
    assert_eq!(a.get_bind(), ElfSymbolBind::Hiproc);
    a.info = 0xdc;
    assert_eq!(a.get_type(), ElfSymbolType::Hios);
    assert_eq!(a.get_bind(), ElfSymbolBind::Loproc);
    a.info = 0xcd;
    assert_eq!(a.get_type(), ElfSymbolType::Loproc);
    assert_eq!(a.get_bind(), ElfSymbolBind::Hios);
    a.info = 0xaf;
    assert_eq!(a.get_type(), ElfSymbolType::Hiproc);
    assert_eq!(a.get_bind(), ElfSymbolBind::GnuUnique);

    a.info = 0x98;
    assert_eq!(a.get_type(), ElfSymbolType::Unknown(8));
    assert_eq!(a.get_bind(), ElfSymbolBind::Unknown(9));
}
