use kallsyms::elf::parser::ElfHeader;

#[test]
fn elf32header() {
    let data: Vec<u8> = (0u8..0xffu8).collect();
    let header32 = ElfHeader::unpack(&data, false, false).unwrap();
    let header = &header32;

    assert_eq!(header32.typ,                          0x0001u16);
    assert_eq!(header32.machine,                      0x0203u16);
    assert_eq!(header32.version,                  0x04050607u32);
    assert_eq!(header32.entry,                    0x08090a0bu64);
    assert_eq!(header32.phoff,                    0x0c0d0e0fu64);
    assert_eq!(header32.shoff,                    0x10111213u64);
    assert_eq!(header32.flags,                    0x14151617u32);
    assert_eq!(header32.ehsize,                       0x1819u16);
    assert_eq!(header32.phentsize,                    0x1a1bu16);
    assert_eq!(header32.phnum,                        0x1c1du16);
    assert_eq!(header32.shentsize,                    0x1e1fu16);
    assert_eq!(header32.shnum,                        0x2021u16);
    assert_eq!(header32.shstrndx,                     0x2223u16);

    assert_eq!(header.typ,                     0x0001u16);
    assert_eq!(header.machine,                  0x0203u16);
    assert_eq!(header.version,              0x04050607u32);
    assert_eq!(header.entry,       0x00000000_08090a0bu64);
    assert_eq!(header.phoff,       0x00000000_0c0d0e0fu64);
    assert_eq!(header.shoff,       0x00000000_10111213u64);
    assert_eq!(header.flags,                0x14151617u32);
    assert_eq!(header.ehsize,                   0x1819u16);
    assert_eq!(header.phentsize,                0x1a1bu16);
    assert_eq!(header.phnum,                    0x1c1du16);
    assert_eq!(header.shentsize,                0x1e1fu16);
    assert_eq!(header.shnum,                    0x2021u16);
    assert_eq!(header.shstrndx,                 0x2223u16);
}

#[test]
fn elf64header() {
    let data: Vec<u8> = (0u8..0xffu8).collect();
    let header64 = ElfHeader::unpack(&data, true, false).unwrap();
    let header = &header64;

    assert_eq!(header64.typ,                          0x0001u16);
    assert_eq!(header64.machine,                      0x0203u16);
    assert_eq!(header64.version,                  0x04050607u32);
    assert_eq!(header64.entry,           0x08090a0b_0c0d0e0fu64);
    assert_eq!(header64.phoff,           0x10111213_14151617u64);
    assert_eq!(header64.shoff,           0x18191a1b_1c1d1e1fu64);
    assert_eq!(header64.flags,                    0x20212223u32);
    assert_eq!(header64.ehsize,                       0x2425u16);
    assert_eq!(header64.phentsize,                    0x2627u16);
    assert_eq!(header64.phnum,                        0x2829u16);
    assert_eq!(header64.shentsize,                    0x2a2bu16);
    assert_eq!(header64.shnum,                        0x2c2du16);
    assert_eq!(header64.shstrndx,                     0x2e2fu16);

    assert_eq!(header.typ,                     0x0001u16);
    assert_eq!(header.machine,                  0x0203u16);
    assert_eq!(header.version,              0x04050607u32);
    assert_eq!(header.entry,       0x08090a0b_0c0d0e0fu64);
    assert_eq!(header.phoff,       0x10111213_14151617u64);
    assert_eq!(header.shoff,       0x18191a1b_1c1d1e1fu64);
    assert_eq!(header.flags,                0x20212223u32);
    assert_eq!(header.ehsize,                   0x2425u16);
    assert_eq!(header.phentsize,                0x2627u16);
    assert_eq!(header.phnum,                    0x2829u16);
    assert_eq!(header.shentsize,                0x2a2bu16);
    assert_eq!(header.shnum,                    0x2c2du16);
    assert_eq!(header.shstrndx,                 0x2e2fu16);
}

#[test]
fn elf_header_too_short() {
    assert!(ElfHeader::unpack(&[0u8; 35], false, true).is_err());
    assert!(ElfHeader::unpack(&[0u8; 47], true, true).is_err());
    assert!(ElfHeader::unpack(&[0u8; 36], false, true).is_ok());
}
