use dsa::bubble_sort::bubble_sort;
use dsa::quick_sort::quick_sort;

#[test]
fn bubble_sort_it_works() {
    let mut arr = vec![9, 3, 7, 4, 69, 420, 42];
    bubble_sort(&mut arr);
    assert_eq!(arr, vec![3, 4, 7, 9, 42, 69, 420]);
}

#[test]
fn quick_sort_it_works() {
    let mut arr = vec![9, 3, 7, 4, 69, 420, 42];
    quick_sort(&mut arr);

    assert_eq!(arr, vec![3, 4, 7, 9, 42, 69, 420]);
}

#[test]
fn sorts_handle_edge_cases() {
    let cases: Vec<Vec<i32>> = vec![
        vec![],
        vec![1],
        vec![2, 1],
        vec![1, 2],
        vec![5, 5, 5],
        vec![3, -1, 2, -1, 3, 0],
        vec![i32::MAX, i32::MIN, 0],
        vec![6, 5, 4, 3, 2, 1],
    ];
    for case in cases {
        let mut expected = case.clone();
        expected.sort();
        let mut a = case.clone();
        bubble_sort(&mut a);
        assert_eq!(a, expected);
        let mut b = case.clone();
        quick_sort(&mut b);
        assert_eq!(b, expected);
    }
}
