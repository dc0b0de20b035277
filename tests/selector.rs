use kallsyms::{guess_best_token, strictly_find_best_token};

#[test]
fn guess_best_token_guess_1() {
    let data: &[&[u8]] = &[
        b"aaa_test_common_token_111",
        b"bbb_test_common_token_222",
        b"ccc_test_common_token_333",
        b"ddd_test_common_token_444",
        b"eee_test_common_token_555",
    ];

    assert_eq!(guess_best_token(data), (b"_test_common_token_".to_vec(), 5))
}

#[test]
fn guess_best_token_guess_local_optimum_1() {
    let data: &[&[u8]] = &[b"123abc", b"456abc", b"789abc"];

    assert_eq!(guess_best_token(data), (b"123abc".to_vec(), 1))
}

#[test]
fn guess_best_token_strict_1() {
    let data: &[&[u8]] = &[b"123abc", b"456abc", b"789abc"];

    assert_eq!(strictly_find_best_token(data), (&b"abc"[..], 3))
}

#[test]
fn strict_selector_score_is_maximal() {
    let data: &[&[u8]] = &[b"123abc", b"456abc", b"789abc"];
    let (token, count) = strictly_find_best_token(data);
    assert_eq!(token.len() * count, 9);
}

#[test]
fn strict_selector_prefers_longer_then_smaller() {
    let data: &[&[u8]] = &[b"abab"];
    assert_eq!(strictly_find_best_token(data), (&b"abab"[..], 1));
    // "a", "b", "ab" and "ba" all score 2: the longer tokens win, then the smaller
    let data: &[&[u8]] = &[b"ba", b"ab"];
    assert_eq!(strictly_find_best_token(data), (&b"ab"[..], 1));
}

#[test]
fn selectors_on_no_fragments() {
    let data: &[&[u8]] = &[];
    assert_eq!(guess_best_token(data), (Vec::new(), 0));
    assert_eq!(strictly_find_best_token(data), (&b""[..], 0));
}

#[test]
fn guess_1() {
    let data: &[&[u8]] = &[
        b"aaa_test_common_token_111",
        b"bbb_test_common_token_222",
        b"ccc_test_common_token_333",
        b"ddd_test_common_token_444",
        b"eee_test_common_token_555",
    ];

    assert_eq!(guess_best_token(data), (b"_test_common_token_".to_vec(), 5))
}

#[test]
fn guess_local_optimum_1() {
    let data: &[&[u8]] = &[b"123abc", b"456abc", b"789abc"];

    assert_eq!(guess_best_token(data), (b"123abc".to_vec(), 1))
}

#[test]
fn strict_1() {
    let data: &[&[u8]] = &[b"123abc", b"456abc", b"789abc"];

    let (token, count) = strictly_find_best_token(data);
    assert_eq!((token, token.len() * count), (&b"abc"[..], 9usize))
}
