use kallsyms::{pack, KAllSyms};

#[test]
fn normal1() {
    let data = pack(&vec![
        (String::from("alloc::vec::Vec<T>::new"), 0x1000),
        (String::from("alloc::raw_vec::alloc_guard"), 0x2000),
        (String::from("core::alloc::global::GlobalAlloc::realloc"), 0x3000),
    ])
    .unwrap();

    let kallsyms = KAllSyms::new(&data);
    let mut namebuf: [u8; 30] = [0; 30];

    assert_eq!(kallsyms.safe_search(0x0fff, &mut namebuf), None);

    assert_eq!(kallsyms.safe_search(0x1000, &mut namebuf), Some(("alloc::vec::Vec<T>::new", 0)));

    assert_eq!(kallsyms.safe_search(0x1fff, &mut namebuf), Some(("alloc::vec::Vec<T>::new", 0xfff)));

    assert_eq!(kallsyms.safe_search(0x2000, &mut namebuf), Some(("alloc::raw_vec::alloc_guard", 0)));

    assert_eq!(
        kallsyms.safe_search(0x10000, &mut namebuf),
        Some(("core::alloc::global::GlobalAll", 0xd000))
    );
}

#[test]
fn kallsyms_empty() {
    let data: [u8; 12] = [0; 12];

    let kallsyms = KAllSyms::new(&data);
    let mut namebuf: [u8; 64] = [0; 64];

    assert_eq!(kallsyms.safe_search(0x1000, &mut namebuf), None);
}

fn sample() -> Vec<(String, u32)> {
    vec![
        (String::from("_start"), 0x10),
        (String::from("kernel::main"), 0x40),
        (String::from("kernel::panic_handler"), 0x80),
        (String::from("kernel::main::helper"), 0x100),
    ]
}

#[test]
fn round_trip_every_exact_address() {
    let symbols = sample();
    let data = pack(&symbols).unwrap();
    let kallsyms = KAllSyms::new(&data);
    for (name, addr) in symbols.iter() {
        let mut buf = [0u8; 64];
        assert_eq!(kallsyms.safe_search(*addr, &mut buf), Some((name.as_str(), 0)));
    }
}

#[test]
fn floor_search_between_symbols() {
    let symbols = sample();
    let data = pack(&symbols).unwrap();
    let kallsyms = KAllSyms::new(&data);
    let mut buf = [0u8; 64];
    assert_eq!(kallsyms.safe_search(0x3f, &mut buf), Some(("_start", 0x2f)));
    assert_eq!(kallsyms.safe_search(0x41, &mut buf), Some(("kernel::main", 1)));
    assert_eq!(kallsyms.safe_search(0xff, &mut buf), Some(("kernel::panic_handler", 0x7f)));
    assert_eq!(kallsyms.safe_search(u32::MAX, &mut buf), Some(("kernel::main::helper", u32::MAX - 0x100)));
}

#[test]
fn lower_bound_and_empty_table() {
    let data = pack(&sample()).unwrap();
    let kallsyms = KAllSyms::new(&data);
    let mut buf = [0u8; 64];
    assert_eq!(kallsyms.safe_search(0, &mut buf), None);
    assert_eq!(kallsyms.safe_search(0xf, &mut buf), None);
    let empty = pack(&vec![]).unwrap();
    let kallsyms = KAllSyms::new(&empty);
    assert_eq!(kallsyms.safe_search(0, &mut buf), None);
    assert_eq!(kallsyms.safe_search(u32::MAX, &mut buf), None);
}

#[test]
fn truncation_keeps_a_prefix() {
    let data = pack(&sample()).unwrap();
    let kallsyms = KAllSyms::new(&data);
    let mut buf = [0xaau8; 5];
    assert_eq!(kallsyms.safe_search(0x80, &mut buf), Some(("kerne", 0)));
    let mut none: [u8; 0] = [];
    assert_eq!(kallsyms.safe_search(0x80, &mut none), Some(("", 0)));
}

#[test]
fn truncation_backs_off_a_split_character() {
    let data = pack(&vec![(String::from("ab\u{e9}"), 0x10)]).unwrap();
    let kallsyms = KAllSyms::new(&data);
    let mut buf = [0u8; 3];
    assert_eq!(kallsyms.safe_search(0x10, &mut buf), Some(("ab", 0)));
    let mut buf = [0u8; 4];
    assert_eq!(kallsyms.safe_search(0x10, &mut buf), Some(("ab\u{e9}", 0)));
}

#[test]
fn short_or_broken_blobs_hold_nothing() {
    let mut buf = [0u8; 8];
    assert_eq!(KAllSyms::new(&[1, 2, 3]).safe_search(5, &mut buf), None);
    // header announces two symbols but the address table is cut short
    let blob = [0u8, 0, 0, 0, 2, 0, 12, 0, 20, 0, 20, 0, 1, 0, 0, 0];
    assert_eq!(KAllSyms::new(&blob).safe_search(5, &mut buf), None);
}

#[test]
fn safe_nth_name_writes_a_prefix_and_leaves_the_rest() {
    let data = pack(&sample()).unwrap();
    let kallsyms = KAllSyms::new(&data);
    let mut buf = [0xaau8; 8];
    assert_eq!(kallsyms.safe_nth_name(2, &mut buf), 8);
    assert_eq!(&buf, b"kernel::");
    let mut buf = [0xaau8; 10];
    assert_eq!(kallsyms.safe_nth_name(0, &mut buf), 6);
    assert_eq!(&buf, b"_start\xaa\xaa\xaa\xaa");
}
