use dancing_links::util::{three_combination_iter, two_combination_iter};

#[test]
fn three_combo() {
    let it = three_combination_iter([2, 4, 6], [0, 2, 4]);

    assert_eq!(
        it,
        vec![
            [0, 2, 4],
            [0, 2, 5],
            [0, 3, 4],
            [0, 3, 5],
            [1, 2, 4],
            [1, 2, 5],
            [1, 3, 4],
            [1, 3, 5],
        ]
    );
}

#[test]
fn latin_square_test_1() {
    let it = three_combination_iter([2, 2, 2 + 1], [0, 0, 1]);

    assert_eq!(
        it,
        vec![
            [0, 0, 1],
            [0, 0, 2],
            [0, 1, 1],
            [0, 1, 2],
            [1, 0, 1],
            [1, 0, 2],
            [1, 1, 1],
            [1, 1, 2],
        ]
    );
}

#[test]
fn latin_square_test_3() {
    let it = three_combination_iter([4, 4, 5], [0, 0, 1]);

    assert_eq!(
        it,
        vec![
            [0, 0, 1],
            [0, 0, 2],
            [0, 0, 3],
            [0, 0, 4],
            [0, 1, 1],
            [0, 1, 2],
            [0, 1, 3],
            [0, 1, 4],
            [0, 2, 1],
            [0, 2, 2],
            [0, 2, 3],
            [0, 2, 4],
            [0, 3, 1],
            [0, 3, 2],
            [0, 3, 3],
            [0, 3, 4],
            [1, 0, 1],
            [1, 0, 2],
            [1, 0, 3],
            [1, 0, 4],
            [1, 1, 1],
            [1, 1, 2],
            [1, 1, 3],
            [1, 1, 4],
            [1, 2, 1],
            [1, 2, 2],
            [1, 2, 3],
            [1, 2, 4],
            [1, 3, 1],
            [1, 3, 2],
            [1, 3, 3],
            [1, 3, 4],
            [2, 0, 1],
            [2, 0, 2],
            [2, 0, 3],
            [2, 0, 4],
            [2, 1, 1],
            [2, 1, 2],
            [2, 1, 3],
            [2, 1, 4],
            [2, 2, 1],
            [2, 2, 2],
            [2, 2, 3],
            [2, 2, 4],
            [2, 3, 1],
            [2, 3, 2],
            [2, 3, 3],
            [2, 3, 4],
            [3, 0, 1],
            [3, 0, 2],
            [3, 0, 3],
            [3, 0, 4],
            [3, 1, 1],
            [3, 1, 2],
            [3, 1, 3],
            [3, 1, 4],
            [3, 2, 1],
            [3, 2, 2],
            [3, 2, 3],
            [3, 2, 4],
            [3, 3, 1],
            [3, 3, 2],
            [3, 3, 3],
            [3, 3, 4]
        ]
    );
}

#[test]
fn two_combination_pairs() {
    assert_eq!(
        two_combination_iter([2, 3], [0, 1]),
        vec![[0, 1], [0, 2], [1, 1], [1, 2]]
    );
}

#[test]
fn combinations_of_an_empty_range() {
    assert!(three_combination_iter([2, 1, 3], [0, 1, 0]).is_empty());
    assert!(two_combination_iter([0, 3], [0, 1]).is_empty());
    assert!(two_combination_iter([3, 1], [0, 2]).is_empty());
}
