use kallsyms::dictionary::split_by_token;
use kallsyms::make_dic;

#[test]
fn make_dic_test() {
    let syms: Vec<&[u8]> = vec![b"foo_test_1", b"bar1_test_23", b"bar2_test_456"];

    assert_eq!(
        make_dic(syms),
        vec![
            (b"_test_".to_vec(), 3),
            (b"bar1".to_vec(), 1),
            (b"bar2".to_vec(), 1),
            (b"foo".to_vec(), 1),
            (b"1".to_vec(), 1),
            (b"23".to_vec(), 1),
            (b"456".to_vec(), 1),
        ]
    );
}

#[test]
fn make_dic_of_nothing_is_empty() {
    assert_eq!(make_dic(vec![]), vec![]);
    let empty: &[u8] = b"";
    assert_eq!(make_dic(vec![empty]), vec![]);
}

#[test]
fn make_dic_stays_within_one_byte_of_ids() {
    let mut names: Vec<Vec<u8>> = Vec::new();
    for a in 0u8..=255 {
        names.push(vec![a, a.wrapping_mul(7), a.wrapping_add(13)]);
    }
    let refs: Vec<&[u8]> = names.iter().map(|n| n.as_slice()).collect();
    let dic = make_dic(refs);
    assert!(dic.len() <= 256);
    assert!(dic.iter().all(|(t, _)| !t.is_empty()));
}

#[test]
fn split_drops_the_token_and_empty_pieces() {
    assert_eq!(split_by_token(b"foo_test_1", b"_test_"), vec![&b"foo"[..], &b"1"[..]]);
    assert_eq!(split_by_token(b"_test_", b"_test_"), Vec::<&[u8]>::new());
    assert_eq!(split_by_token(b"aaaa", b"aa"), Vec::<&[u8]>::new());
    assert_eq!(split_by_token(b"xaaay", b"aa"), vec![&b"x"[..], &b"ay"[..]]);
    assert_eq!(split_by_token(b"xyz", b"q"), vec![&b"xyz"[..]]);
}

#[test]
fn every_name_is_spelled_by_the_dictionary() {
    let names: Vec<&[u8]> = vec![
        b"alloc::vec::Vec<T>::new",
        b"alloc::raw_vec::alloc_guard",
        b"core::alloc::global::GlobalAlloc::realloc",
        b"",
        b"x",
    ];
    let dic: Vec<Vec<u8>> = make_dic(names.clone()).into_iter().map(|(t, _)| t).collect();
    for name in names {
        let ids = kallsyms::pack::tokenize(name, &dic);
        let spelled: Vec<u8> = ids.iter().flat_map(|&i| dic[i as usize].clone()).collect();
        assert_eq!(spelled, name.to_vec());
    }
}

#[test]
fn test() {
    let syms: Vec<&[u8]> = vec![b"foo_test_1", b"bar1_test_23", b"bar2_test_456"];

    // entries with their score, length × count
    let scored: Vec<(Vec<u8>, usize)> =
        kallsyms::make_dic_exact(syms).into_iter().map(|(t, c)| { let s = t.len() * c; (t, s) }).collect();
    assert_eq!(
        scored,
        vec![
            (b"_test_".to_vec(), 18),
            (b"bar".to_vec(), 6),
            (b"456".to_vec(), 3),
            (b"foo".to_vec(), 3),
            (b"23".to_vec(), 2),
            (b"1".to_vec(), 2),
            (b"2".to_vec(), 1),
        ]
    );
}
