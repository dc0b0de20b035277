use kallsyms::pack::{str_table, str_table_fits, tokenize};
use kallsyms::{pack, KAllSyms};

#[test]
fn str_table_1() {
    assert_eq!(
        str_table(&vec![vec![0u8, 1], vec![2u8, 3, 4], vec![5u8]]),
        vec![
            // offsets
            6u8, 0, 9, 0, 13, 0, // payload
            2, 0, 1, 3, 2, 3, 4, 1, 5,
        ]
    )
}

#[test]
fn tokenize_1() {
    assert_eq!(
        tokenize(
            &[0u8, 1, 2, 3, 4, 5, 6, 7, 8, 9, 10, 11, 12, 13, 14, 15,],
            &vec![
                vec![4u8, 5, 6, 7], // 0
                vec![9u8, 10, 11],  // 1
                vec![14u8, 15],     // 2
                vec![12u8, 13],     // 3
                vec![0u8],          // 4
                vec![2u8],          // 5
                vec![1u8],          // 6
                vec![3u8],          // 7
                vec![8u8],          // 8
            ]
        ),
        vec![4u8, 6, 5, 7, 0, 8, 1, 3, 2]
    )
}

#[test]
fn tokenize_empty_and_repeated() {
    assert_eq!(tokenize(&[], &vec![]), Vec::<u8>::new());
    assert_eq!(tokenize(&[1u8, 2, 1, 2, 3], &vec![vec![1u8, 2], vec![3u8]]), vec![0u8, 0, 1]);
}

#[test]
fn str_table_limits() {
    assert!(str_table_fits(&vec![vec![0u8; 255]]));
    assert!(!str_table_fits(&vec![vec![0u8; 256]]));
    assert!(str_table_fits(&vec![]));
}

#[test]
fn pack_empty_has_a_header_only() {
    let blob = pack(&vec![]).unwrap();
    assert_eq!(blob, vec![0, 0, 0, 0, 0, 0, 12, 0, 12, 0, 12, 0]);
}

#[test]
fn pack_layout_of_one_symbol() {
    let blob = pack(&vec![(String::from("ab"), 0x01020304)]).unwrap();
    // header
    assert_eq!(&blob[0..12], &[0, 0, 0, 0, 1, 0, 12, 0, 16, 0, 20, 0]);
    // address table
    assert_eq!(&blob[12..16], &[4, 3, 2, 1]);
    let kallsyms = KAllSyms::new(&blob);
    let mut buf = [0u8; 8];
    assert_eq!(kallsyms.safe_search(0x01020304, &mut buf), Some(("ab", 0)));
}

#[test]
fn pack_refuses_more_than_65535_symbols() {
    let symbols: Vec<(String, u32)> = (0..65536u32).map(|i| (String::from("f"), i)).collect();
    assert_eq!(pack(&symbols), None);
}
