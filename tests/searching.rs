use dsa::binary_search::binary_search;
use dsa::linear_search::linear_search;
use dsa::two_crystal_balls::two_crystal_balls;

#[test]
fn binary_search_it_works() {
    let foo = vec![1, 3, 4, 69, 71, 81, 90, 99, 420, 1337, 69420];
    assert!(binary_search(&foo, 69));
    assert!(!binary_search(&foo, 1336));
    assert!(binary_search(&foo, 69420));
    assert!(!binary_search(&foo, 69421));
    assert!(binary_search(&foo, 1));
    assert!(!binary_search(&foo, 0));
}

#[test]
fn binary_search_empty_and_single() {
    let empty: Vec<u32> = vec![];
    assert!(!binary_search(&empty, 0));
    assert!(binary_search(&[7], 7));
    assert!(!binary_search(&[7], 8));
    assert!(binary_search(&[2, 2, 2, 2], 2));
}

#[test]
fn linear_search_it_works() {
    let foo = vec![1, 3, 4, 69, 71, 81, 90, 99, 420, 1337, 69420];
    assert!(linear_search(&foo, 69));
    assert!(!linear_search(&foo, 1336));
    assert!(linear_search(&foo, 69420));
    assert!(!linear_search(&foo, 69421));
    assert!(linear_search(&foo, 1));
    assert!(!linear_search(&foo, 0));
}

#[test]
fn linear_search_unsorted() {
    let foo = vec![5, 1, 9, 3];
    assert!(linear_search(&foo, 3));
    assert!(!linear_search(&foo, 4));
    assert!(!linear_search(&vec![], 4));
}

#[test]
fn two_crystal_balls_it_works() {
    for idx in [0usize, 1, 99, 100, 101, 200, 4321, 9900, 9999] {
        let data = [vec![false; idx], vec![true; 10000 - idx]].concat();
        assert_eq!(two_crystal_balls(&data), Some(idx));
    }
    assert_eq!(two_crystal_balls(&vec![false; 821]), None);
}

#[test]
fn two_crystal_balls_small_inputs() {
    assert_eq!(two_crystal_balls(&[]), None);
    assert_eq!(two_crystal_balls(&[true]), Some(0));
    assert_eq!(two_crystal_balls(&[false]), None);
    assert_eq!(two_crystal_balls(&[false, false, true, true]), Some(2));
    assert_eq!(two_crystal_balls(&[false, false, false, true]), Some(3));
}
