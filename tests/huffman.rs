use kallsyms::huffman;

/*
 *                    35
 *                  ___|___
 *                 /       \
 *                /         15
 *               /          / \
 *             20          /   7
 *            / \         /   / \
 *           11  \       /   /   3
 *          / \   \     /   /   / \
 *        (6) (5) (9) (8) (4) (2) (1)
 */

#[test]
fn lib_test() {
    assert_eq!(
        huffman(vec![(1, 1), (2, 2), (4, 4), (5, 5), (6, 6), (8, 8), (9, 9),]),
        vec![
            (1, 1, vec![1, 1, 1, 1]),
            (2, 2, vec![1, 1, 1, 0]),
            (4, 4, vec![1, 1, 0]),
            (5, 5, vec![0, 0, 1]),
            (6, 6, vec![0, 0, 0]),
            (8, 8, vec![1, 0]),
            (9, 9, vec![0, 1]),
        ]
    );
}

#[test]
fn huffman_test() {
    let dic: Vec<(Vec<u8>, usize)> = vec![
        (b"one".to_vec(), 1),
        (b"two".to_vec(), 2),
        (b"four".to_vec(), 4),
        (b"five".to_vec(), 5),
        (b"six".to_vec(), 6),
        (b"eight".to_vec(), 8),
        (b"nine".to_vec(), 9),
    ];
    let table = huffman(dic.iter().enumerate().map(|(i, (_tok, freq))| (i, *freq)).collect());
    let named: Vec<(Vec<u8>, Vec<u8>)> =
        table.into_iter().map(|(i, _freq, code)| (dic[i].0.clone(), code)).collect();
    assert_eq!(
        named,
        vec![
            (b"one".to_vec(), vec![1, 1, 1, 1]),
            (b"two".to_vec(), vec![1, 1, 1, 0]),
            (b"four".to_vec(), vec![1, 1, 0]),
            (b"five".to_vec(), vec![0, 0, 1]),
            (b"six".to_vec(), vec![0, 0, 0]),
            (b"eight".to_vec(), vec![1, 0]),
            (b"nine".to_vec(), vec![0, 1]),
        ]
    );
}

#[test]
fn huffman_small_inputs() {
    assert_eq!(huffman(vec![]), vec![]);
    assert_eq!(huffman(vec![(7, 3)]), vec![(7, 3, vec![])]);
    assert_eq!(huffman(vec![(7, 3), (8, 3)]), vec![(7, 3, vec![0]), (8, 3, vec![1])]);
}
